use phashgen::rom::{Rom, ROM_SIZE, LATEST_WORD_PTR_ADDR, bytes_eq};
use phashgen::word::Word;

/// Lay one word record into the image: the masked name bytes below `nfa`
/// (first byte of the name nearest to `nfa`, the last one carrying the
/// terminator bit), the length field at `nfa`, and the link at `nfa + 1`.
fn put_word(image: &mut Vec<u8>, nfa: usize, name: &str, link: u16) {
    let bytes = name.as_bytes();
    for (i, &c) in bytes.iter().enumerate() {
        let mut v = c & 0x7F;
        if i == bytes.len() - 1 {
            v |= 0x80;
        }
        image[nfa - 1 - i] = v;
    }
    image[nfa] = bytes.len() as u8;
    image[nfa + 1] = (link & 0xFF) as u8;
    image[nfa + 2] = (link >> 8) as u8;
}

fn blank_image() -> Vec<u8> {
    vec![0u8; ROM_SIZE]
}

fn set_latest(image: &mut Vec<u8>, addr: u16) {
    image[LATEST_WORD_PTR_ADDR] = (addr & 0xFF) as u8;
    image[LATEST_WORD_PTR_ADDR + 1] = (addr >> 8) as u8;
}

#[test]
fn from_bytes_requires_the_exact_size() {
    assert!(Rom::from_bytes(vec![0u8; ROM_SIZE]).is_ok());
    assert!(Rom::from_bytes(vec![0u8; ROM_SIZE - 1]).is_err());
    assert!(Rom::from_bytes(vec![0u8; ROM_SIZE + 1]).is_err());
    assert!(Rom::from_bytes(Vec::new()).is_err());
}

#[test]
fn sixteen_bit_reads_are_little_endian() {
    let mut image = blank_image();
    image[0x100] = 0x34;
    image[0x101] = 0x12;
    let rom = Rom::from_bytes(image).unwrap();
    assert_eq!(rom.get_u8(0x100), 0x34);
    assert_eq!(rom.get_u16(0x100), 0x1234);
}

#[test]
fn words_follow_the_linked_list() {
    let mut image = blank_image();
    put_word(&mut image, 0x1000, "DUP", 0x0800);
    put_word(&mut image, 0x0800, "SWAP", 0);
    set_latest(&mut image, 0x1000);
    let rom = Rom::from_bytes(image).unwrap();
    assert_eq!(rom.latest_word_addr(), 0x1000);
    let words = rom.words().unwrap();
    assert_eq!(words.len(), 2);
    assert_eq!(words[0].name, b"DUP".to_vec());
    assert_eq!(words[0].nfa, 0x1000);
    assert_eq!(words[0].next_word_addr, 0x0800);
    assert_eq!(words[1].name, b"SWAP".to_vec());
    assert_eq!(words[1].next_word_addr, 0);
}

#[test]
fn empty_dictionary_gives_no_words() {
    let image = blank_image();
    let rom = Rom::from_bytes(image).unwrap();
    assert_eq!(rom.latest_word_addr(), 0);
    assert_eq!(rom.words().unwrap().len(), 0);
}

#[test]
fn duplicate_names_are_rejected() {
    let mut image = blank_image();
    put_word(&mut image, 0x1000, "DUP", 0x0800);
    put_word(&mut image, 0x0800, "DUP", 0);
    set_latest(&mut image, 0x1000);
    let rom = Rom::from_bytes(image).unwrap();
    assert!(rom.words().is_err());
}

#[test]
fn name_length_field_must_match() {
    let mut image = blank_image();
    put_word(&mut image, 0x1000, "DUP", 0);
    image[0x1000] = 5;  // wrong length field
    set_latest(&mut image, 0x1000);
    let rom = Rom::from_bytes(image).unwrap();
    assert!(rom.words().is_err());
    assert!(Word::from_rom(&rom, 0x1000).is_err());
}

#[test]
fn word_address_outside_the_image_is_rejected() {
    let mut image = blank_image();
    set_latest(&mut image, 0x9000);
    let rom = Rom::from_bytes(image).unwrap();
    assert!(rom.words().is_err());
}

#[test]
fn name_mask_strips_the_seven_high_flag() {
    let mut image = blank_image();
    // a one-byte name whose stored byte carries the terminator bit
    image[0x0FFF] = b'X' | 0x80;
    image[0x1000] = 1;
    set_latest(&mut image, 0x1000);
    let rom = Rom::from_bytes(image).unwrap();
    let words = rom.words().unwrap();
    assert_eq!(words[0].name, vec![b'X']);
}

#[test]
fn bytes_eq_compares_contents() {
    assert!(bytes_eq(&vec![1, 2, 3], &vec![1, 2, 3]));
    assert!(!bytes_eq(&vec![1, 2, 3], &vec![1, 2, 4]));
    assert!(!bytes_eq(&vec![1, 2], &vec![1, 2, 3]));
    assert!(bytes_eq(&Vec::new(), &Vec::new()));
}
