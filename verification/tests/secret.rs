use ward::secret::{continues, wipe, Secret};

#[test]
fn counts_characters_not_bytes() {
    let mut region = [0u8; 64];
    let mut s = Secret::with_capacity(&mut region, true);
    // Six Cyrillic characters, twelve bytes. A byte-counting mask would show twelve
    // asterisks for six keypresses — the failure that started this project.
    s.push("парола".as_bytes());
    assert_eq!(s.len(), 12);
    assert_eq!(s.chars(), 6);
}

#[test]
fn backspace_removes_a_whole_character() {
    let mut region = [0u8; 64];
    let mut s = Secret::with_capacity(&mut region, true);
    s.push("абв".as_bytes());
    s.pop_char();
    assert_eq!(s.chars(), 2);
    assert_eq!(s.as_bytes(), "аб".as_bytes());
}

#[test]
fn backspace_on_empty_is_harmless() {
    let mut region = [0u8; 8];
    let mut s = Secret::with_capacity(&mut region, true);
    s.pop_char();
    assert!(s.is_empty());
}

#[test]
fn refuses_to_grow_past_capacity() {
    let mut region = [0u8; 4];
    let mut s = Secret::with_capacity(&mut region, true);
    s.push(b"abcdefgh");
    assert_eq!(s.len(), 4);
    assert_eq!(s.as_bytes(), b"abcd");
}

#[test]
fn clear_leaves_zeros_behind() {
    let mut region = [0u8; 16];
    let mut s = Secret::with_capacity(&mut region, true);
    s.push(b"hunter2");
    s.clear();
    assert!(s.is_empty());
    assert!(region.iter().all(|&b| b == 0), "wipe left bytes behind");
}

#[test]
fn a_buffer_starts_out_wiped() {
    let mut region = *b"left over";
    let s = Secret::with_capacity(&mut region, false);
    assert!(s.is_empty());
    assert!(!s.is_locked());
    assert_eq!(s.capacity(), 9);
    assert!(region.iter().all(|&b| b == 0));
}

#[test]
fn a_mapping_is_never_empty() {
    assert_eq!(Secret::region_size(0), 1);
    assert_eq!(Secret::region_size(8192), 8192);
}

#[test]
fn what_backspace_removes_is_wiped() {
    let mut region = [0u8; 8];
    let mut s = Secret::with_capacity(&mut region, true);
    assert!(s.is_locked());
    s.push("яz".as_bytes());
    s.pop_char();
    s.pop_char();
    assert!(s.is_empty());
    assert!(region.iter().all(|&b| b == 0));
}

#[test]
fn typing_and_backspace_cancel_out() {
    let mut region = [0u8; 32];
    let mut s = Secret::with_capacity(&mut region, true);
    s.push("аб".as_bytes());
    s.push("€".as_bytes());
    s.pop_char();
    assert_eq!(s.as_bytes(), "аб".as_bytes());
}

#[test]
fn entries_are_the_same_only_when_every_byte_is() {
    let (mut a, mut b) = ([0u8; 300], [0u8; 300]);
    let mut x = Secret::with_capacity(&mut a, true);
    let mut y = Secret::with_capacity(&mut b, true);
    assert!(x.eq_constant_time(&y));
    x.push(b"secret");
    y.push(b"secret");
    assert!(x.eq_constant_time(&y));
    y.push(b"!");
    assert!(!x.eq_constant_time(&y));
    x.push(b"?");
    assert!(!x.eq_constant_time(&y));
    x.clear();
    y.clear();
    // Lengths that differ by a multiple of 256 differ all the same.
    y.push(&[b'a'; 256]);
    assert!(!x.eq_constant_time(&y));
}

#[test]
fn only_the_bytes_inside_a_character_continue_it() {
    let bytes = "я".as_bytes();
    assert!(!continues(bytes[0]));
    assert!(continues(bytes[1]));
    assert!(!continues(b'a'));
}

#[test]
fn wiping_leaves_nothing() {
    let mut region = [1u8, 2, 3];
    wipe(&mut region);
    assert_eq!(region, [0, 0, 0]);
}
