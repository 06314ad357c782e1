use glitchwing::cast::{as_i32, as_usize};
use glitchwing::text::{
    push_filled, push_hex, push_number, push_signed, push_zero_padded,
};

#[test]
fn numbers_print_like_format() {
    for n in [0u32, 7, 9, 10, 42, 99, 100, 12345, u32::MAX] {
        let mut s = String::from(">");
        push_number(&mut s, n);
        assert_eq!(s, format!(">{n}"));
        let mut s = String::new();
        push_zero_padded(&mut s, n, 3);
        assert_eq!(s, format!("{n:03}"));
        let mut s = String::new();
        push_filled(&mut s, n, " ", 3);
        assert_eq!(s, format!("{n:3}"));
    }
}

#[test]
fn signed_numbers_print_like_format() {
    for v in i8::MIN..=i8::MAX {
        let mut s = String::new();
        push_signed(&mut s, v);
        assert_eq!(s, format!("{v:+03}"));
    }
}

#[test]
fn bytes_print_like_format() {
    for b in 0..=255u8 {
        let mut s = String::new();
        push_hex(&mut s, b);
        assert_eq!(s, format!("{b:02x}"));
    }
}

#[test]
fn casts_keep_the_low_bits() {
    for v in [0usize, 1, 0x7FFF_FFFF, 0x8000_0000, 0xFFFF_FFFF, usize::MAX, usize::MAX - 5] {
        assert_eq!(as_i32(v), v as i32);
    }
    for v in [0i32, 1, -1, i32::MAX, i32::MIN, -77] {
        assert_eq!(as_usize(v), v as usize);
    }
}
