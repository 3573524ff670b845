use kmem::keyboard::{repeat_rate_byte, Key, Keyboard, AUXB, OUTB, PREFIX1};

fn ready() -> Keyboard {
    let mut k = Keyboard::new();
    k.init();
    k
}

#[test]
fn letter_key_decodes() {
    let mut k = ready();
    let key = k.key_hit(OUTB, 16);
    assert!(key.valid());
    assert_eq!(key.ascii(), 'q');
}

#[test]
fn nothing_waiting_gives_invalid_key() {
    let mut k = ready();
    assert!(!k.key_hit(0, 16).valid());
    assert!(!k.key_hit(OUTB | AUXB, 16).valid());
}

#[test]
fn release_and_modifier_make_no_key() {
    let mut k = ready();
    assert!(!k.key_hit(OUTB, 16 | 0x80).valid());
    assert!(!k.key_hit(OUTB, 42).valid());
}

#[test]
fn prefixed_slash() {
    let mut k = ready();
    assert!(!k.key_hit(OUTB, PREFIX1).valid());
    assert_eq!(k.key_hit(OUTB, 53).ascii(), '/');
    assert_eq!(k.key_hit(OUTB, 53).ascii(), '-');
}

#[test]
fn non_ascii_shows_question_mark() {
    let mut k = ready();
    assert_eq!(k.key_hit(OUTB, 12).ascii(), '?');
    assert!(!Key::invalid().valid());
}

#[test]
fn repeat_rate_packs_delay_above_rate() {
    assert_eq!(repeat_rate_byte(0, 0), 0);
    assert_eq!(repeat_rate_byte(3, 2), 0x23);
}
