use rustak::bits::Stack;
use rustak::fnv64::{Fnv64, BASE};
use rustak::game::Player::{Black, White};

fn collect(stack: &Stack) -> Vec<rustak::game::Player> {
    let mut iter = stack.into_iter();
    let mut out = Vec::new();
    while let Some(p) = iter.next() {
        out.push(p);
    }
    out
}

#[test]
fn push_then_get_reads_from_the_top() {
    let mut s = Stack::new();
    s.push(White);
    s.push(Black);
    assert_eq!(s.len(), 2);
    assert_eq!(s.get(0), Black);
    assert_eq!(s.get(1), White);
    assert_eq!(s.get(2), White);
    assert_eq!(s.get(1000), White);
}

#[test]
fn a_new_stack_is_empty() {
    let s = Stack::new();
    assert!(s.is_empty());
    assert_eq!(s.len(), 0);
    assert_eq!(s.get(0), White);
    let d = Stack::default();
    assert!(d.is_empty());
    let mut filled = s;
    filled.push(Black);
    assert!(!filled.is_empty());
}

#[test]
fn pop_stack_takes_the_top_stones_in_order() {
    let mut s = Stack::from_slice(&[White, Black, Black, White, Black]);
    let top = s.pop_stack(2);
    assert_eq!(top.len(), 2);
    assert_eq!(collect(&top), vec![Black, White]);
    assert_eq!(s.len(), 3);
    assert_eq!(collect(&s), vec![Black, Black, White]);
    let none = s.pop_stack(0);
    assert!(none.is_empty());
    assert_eq!(s.len(), 3);
    let all = s.pop_stack(3);
    assert_eq!(collect(&all), vec![Black, Black, White]);
    assert!(s.is_empty());
}

#[test]
fn push_stack_puts_the_stones_on_top_in_order() {
    let mut s = Stack::from_slice(&[Black, White]);
    s.push_stack(Stack::from_slice(&[White, Black, Black]));
    assert_eq!(s.len(), 5);
    assert_eq!(collect(&s), vec![Black, Black, White, White, Black]);
    s.push_stack(Stack::new());
    assert_eq!(s.len(), 5);
}

#[test]
fn pop_stack_and_push_stack_undo_each_other() {
    let owners = [White, Black, Black, White, Black, White, White];
    for n in 0..8u8 {
        let mut s = Stack::from_slice(&owners);
        let top = s.pop_stack(n);
        s.push_stack(top);
        assert_eq!(collect(&s), collect(&Stack::from_slice(&owners)));
    }
}

#[test]
fn a_stack_holds_a_hundred_and_twenty_seven_stones() {
    let mut s = Stack::new();
    for i in 0..127 {
        s.push(if i % 3 == 0 { Black } else { White });
    }
    assert_eq!(s.len(), 127);
    for i in 0..127usize {
        assert_eq!(s.get(126 - i), if i % 3 == 0 { Black } else { White });
    }
    let top = s.pop_stack(100);
    assert_eq!(top.len(), 100);
    assert_eq!(s.len(), 27);
    assert_eq!(top.get(0), Black);
    assert_eq!(s.get(0), White);
    assert_eq!(s.get(26), Black);
}

#[test]
fn the_cursor_goes_from_both_ends() {
    let s = Stack::from_slice(&[White, White, Black]);
    let mut iter = s.into_iter();
    assert_eq!(iter.next(), Some(Black));
    assert_eq!(iter.next_back(), Some(White));
    assert_eq!(iter.next_back(), Some(White));
    assert_eq!(iter.next_back(), None);
    assert_eq!(iter.next(), None);
    let mut back = s.into_iter();
    let mut up = Vec::new();
    while let Some(p) = back.next_back() {
        up.push(p);
    }
    assert_eq!(up, vec![White, White, Black]);
}

#[test]
fn a_stack_is_hashed_by_its_word_and_its_height() {
    let s = Stack::from_slice(&[White, Black, Black]);
    let mut hasher = Fnv64::new(BASE[3]);
    s.hash(&mut hasher);
    assert_eq!(hasher.finish(), 0xa873279d2b55dee5);
    let mut empty = Fnv64::new(7);
    Stack::new().hash(&mut empty);
    let mut by_hand = Fnv64::new(7);
    by_hand.write(&[0u8; 17]);
    assert_eq!(empty.finish(), by_hand.finish());
}

#[test]
fn fnv_mixes_bytes_one_by_one() {
    let offset = 0xcbf29ce484222325u64;
    assert_eq!(Fnv64::new(offset).finish(), offset);
    let mut a = Fnv64::new(offset);
    a.write(&[0x61]);
    assert_eq!(a.finish(), 0xaf63dc4c8601ec8c);
    let mut foobar = Fnv64::new(offset);
    foobar.write(&[0x66, 0x6f, 0x6f, 0x62, 0x61, 0x72]);
    assert_eq!(foobar.finish(), 0x85944171f73967e8);
    let mut split = Fnv64::new(offset);
    split.write(&[0x66, 0x6f]);
    split.write(&[]);
    split.write(&[0x6f, 0x62, 0x61, 0x72]);
    assert_eq!(split.finish(), 0x85944171f73967e8);
}

#[test]
fn fnv_takes_words_least_significant_byte_first() {
    let mut word = Fnv64::new(1);
    word.write_u64(0x0102030405060708);
    assert_eq!(word.finish(), 0x62df1517aa9060b1);
    let mut bytes = Fnv64::new(1);
    bytes.write(&[8, 7, 6, 5, 4, 3, 2, 1]);
    assert_eq!(bytes.finish(), 0x62df1517aa9060b1);
    let mut wide = Fnv64::new(1);
    wide.write_u128(0x0102030405060708090a0b0c0d0e0f10);
    assert_eq!(wide.finish(), 0x3af5e396aa7cb861);
    let mut one = Fnv64::new(1);
    one.write_u8(0xff);
    assert_eq!(one.finish(), 0xfe000001af9a);
}

#[test]
fn the_seeds_are_pinned() {
    assert_eq!(BASE.len(), 64);
    assert_eq!(BASE[0], 0x7c3b57bf837d04e6);
    assert_eq!(BASE[1], 0xd9244b928d93faea);
    assert_eq!(BASE[31], 0x4d6c497f2e00901a);
    assert_eq!(BASE[63], 0x3a0ab8ef41e4aa26);
    let mut all = 0u64;
    for seed in BASE {
        all ^= seed;
    }
    assert_eq!(all, 0x5d6ed5a450847c09);
}
