//! The ROM image the dictionary entries are read from.

use vstd::prelude::*;
use vstd::string::StringExecFns;
use crate::errors::ToolLibError;
use crate::errors::usize_to_string;
use crate::word::Word;
use crate::word;

verus! {

/// Size of a ROM image in bytes.
pub const ROM_SIZE: usize = 0x8000;

/// Address of the pointer to the most recently defined word.
pub const LATEST_WORD_PTR_ADDR: usize = 0x7FFE;

/// More dictionary entries than there are addresses: only a cyclic word
/// list could reach this many.
pub const SLOT_SPACE_BOUND: usize = 65537;

/// A little-endian 16-bit value read from two consecutive ROM bytes.
pub open spec fn rom_u16(d: Seq<u8>, addr: int) -> u16 {
    (d[addr] as u16) | ((d[addr + 1] as u16) << 8)
}

/// Whether the dictionary's linked list reads back cleanly from `cur`:
/// every record on the chain parses, no name repeats one in `names`, and
/// the chain reaches the zero terminator within `fuel` links.
pub open spec fn dict_ok(d: Seq<u8>, cur: u16, names: Seq<Seq<u8>>, fuel: nat) -> bool
    decreases fuel,
{
    if cur == 0 {
        true
    } else if fuel == 0 {
        false
    } else if !word::word_parse_ok(d, cur as int) {
        false
    } else if names.contains(word::name_bytes(d, cur as int - 1)) {
        false
    } else {
        dict_ok(
            d,
            rom_u16(d, cur as int + 1),
            names.push(word::name_bytes(d, cur as int - 1)),
            (fuel - 1) as nat,
        )
    }
}

/// A full ROM image.
pub struct Rom {
    bytes: Vec<u8>,
}

impl Rom {
    /// The raw image bytes.
    pub closed spec fn data(&self) -> Seq<u8> {
        self.bytes@
    }

    /// Validity: the image has exactly the ROM size.
    pub open spec fn wf(&self) -> bool {
        self.data().len() == ROM_SIZE
    }

    /// Wrap an image, accepted only at exactly the ROM size.
    pub fn from_bytes(bytes: Vec<u8>) -> (r: Result<Rom, ToolLibError>)
        ensures
            bytes@.len() == ROM_SIZE ==> (r matches Ok(rom) && rom.data() == bytes@),
            bytes@.len() != ROM_SIZE ==> r is Err,
    {
        if bytes.len() != ROM_SIZE {
            let mut msg = String::from_str("MFORTH ROM was only ");
            msg.append(usize_to_string(bytes.len()).as_str());
            msg.append(" bytes long; expected ");
            msg.append(usize_to_string(ROM_SIZE).as_str());
            msg.append(" bytes");
            return Err(ToolLibError::Message(msg));
        }
        Ok(Rom { bytes })
    }

    /// The byte at an address.
    pub fn get_u8(&self, addr: usize) -> (r: u8)
        requires
            self.wf(),
            addr < ROM_SIZE,
        ensures
            r == self.data()[addr as int],
    {
        self.bytes[addr]
    }

    /// The little-endian 16-bit value at an address.
    pub fn get_u16(&self, addr: usize) -> (r: u16)
        requires
            self.wf(),
            addr + 1 < ROM_SIZE,
        ensures
            r == rom_u16(self.data(), addr as int),
    {
        self.get_u8(addr) as u16 | ((self.get_u8(addr + 1) as u16) << 8)
    }

    /// The address of the most recently defined word.
    pub fn latest_word_addr(&self) -> (r: u16)
        requires
            self.wf(),
        ensures
            r == rom_u16(self.data(), LATEST_WORD_PTR_ADDR as int),
    {
        self.get_u16(LATEST_WORD_PTR_ADDR)
    }

    /// Read the whole dictionary: follow the linked list of words from the
    /// latest down to the zero terminator, rejecting malformed entries and
    /// duplicate names.
    pub fn words(&self) -> (r: Result<Vec<Word>, ToolLibError>)
        requires
            self.wf(),
        ensures
            r is Ok <==> dict_ok(
                self.data(),
                rom_u16(self.data(), LATEST_WORD_PTR_ADDR as int),
                Seq::empty(),
                SLOT_SPACE_BOUND as nat,
            ),
            rom_u16(self.data(), LATEST_WORD_PTR_ADDR as int) == 0 ==> (r matches Ok(ws)
                && ws@.len() == 0),
            r matches Ok(ws) ==> {
                &&& forall|i: int, j: int|
                    0 <= i < j < ws@.len() ==> ws@[i].name@ != ws@[j].name@
                &&& (ws@.len() == 0 <==> rom_u16(self.data(), LATEST_WORD_PTR_ADDR as int)
                    == 0)
                &&& (ws@.len() > 0 ==> ws@[0].nfa == rom_u16(
                    self.data(),
                    LATEST_WORD_PTR_ADDR as int,
                ))
                &&& forall|i: int|
                    0 <= i < ws@.len() ==> word::word_parse_ok(
                        self.data(),
                        (#[trigger] ws@[i]).nfa as int,
                    ) && ws@[i].name@ == word::name_bytes(self.data(), ws@[i].nfa as int - 1)
                        && ws@[i].next_word_addr == rom_u16(self.data(), ws@[i].nfa as int + 1)
                &&& forall|i: int|
                    0 <= i && i + 1 < ws@.len() ==> (#[trigger] ws@[i + 1]).nfa
                        == ws@[i].next_word_addr
                &&& (ws@.len() > 0 ==> ws@[ws@.len() - 1].next_word_addr == 0)
            },
    {
        let mut words: Vec<Word> = Vec::new();
        let mut cur: u16 = self.latest_word_addr();
        let mut fuel: usize = SLOT_SPACE_BOUND;
        proof {
            assert(Seq::new(0, |j: int| words@[j].name@) =~= Seq::<Seq<u8>>::empty());
        }
        loop
            invariant
                self.wf(),
                rom_u16(self.data(), LATEST_WORD_PTR_ADDR as int) == 0 ==> cur == 0
                    && words@.len() == 0,
                forall|i: int, j: int|
                    0 <= i < j < words@.len() ==> words@[i].name@ != words@[j].name@,
                (words@.len() == 0 ==> cur == rom_u16(self.data(), LATEST_WORD_PTR_ADDR as int)),
                (words@.len() > 0 ==> words@[0].nfa == rom_u16(
                    self.data(),
                    LATEST_WORD_PTR_ADDR as int,
                )),
                forall|i: int|
                    0 <= i < words@.len() ==> word::word_parse_ok(
                        self.data(),
                        (#[trigger] words@[i]).nfa as int,
                    ) && words@[i].name@ == word::name_bytes(self.data(), words@[i].nfa as int - 1)
                        && words@[i].next_word_addr == rom_u16(
                        self.data(),
                        words@[i].nfa as int + 1,
                    ),
                forall|i: int|
                    0 <= i && i + 1 < words@.len() ==> (#[trigger] words@[i + 1]).nfa
                        == words@[i].next_word_addr,
                (words@.len() > 0 ==> words@[words@.len() - 1].next_word_addr == cur),
                dict_ok(
                    self.data(),
                    rom_u16(self.data(), LATEST_WORD_PTR_ADDR as int),
                    Seq::empty(),
                    SLOT_SPACE_BOUND as nat,
                ) == dict_ok(
                    self.data(),
                    cur,
                    Seq::new(words@.len() as nat, |j: int| words@[j].name@),
                    fuel as nat,
                ),
            ensures
                cur == 0,
            decreases fuel,
        {
            let ghost names = Seq::new(words@.len() as nat, |j: int| words@[j].name@);
            if cur == 0 {
                break ;
            }
            if fuel == 0 {
                proof {
                    assert(!dict_ok(self.data(), cur, names, fuel as nat));
                }
                return Err(
                    ToolLibError::Message("dictionary word list does not terminate".to_string()),
                );
            }
            fuel -= 1;
            let word = match Word::from_rom(self, cur) {
                Ok(w) => w,
                Err(e) => {
                    proof {
                        assert(!word::word_parse_ok(self.data(), cur as int));
                        assert(!dict_ok(self.data(), cur, names, fuel as nat + 1));
                    }
                    return Err(e);
                },
            };
            let mut i: usize = 0;
            while i < words.len()
                invariant
                    self.wf(),
                    rom_u16(self.data(), LATEST_WORD_PTR_ADDR as int) != 0,
                    i <= words@.len(),
                    forall|j: int| 0 <= j < i ==> words@[j].name@ != word.name@,
                    names == Seq::new(words@.len() as nat, |j: int| words@[j].name@),
                    cur != 0,
                    word::word_parse_ok(self.data(), cur as int),
                    word.name@ == word::name_bytes(self.data(), cur as int - 1),
                    dict_ok(
                        self.data(),
                        rom_u16(self.data(), LATEST_WORD_PTR_ADDR as int),
                        Seq::empty(),
                        SLOT_SPACE_BOUND as nat,
                    ) == dict_ok(self.data(), cur, names, fuel as nat + 1),
                decreases words@.len() - i,
            {
                if bytes_eq(&words[i].name, &word.name) {
                    proof {
                        assert(names[i as int] == word.name@);
                        assert(names.contains(word::name_bytes(self.data(), cur as int - 1)));
                        assert(!dict_ok(self.data(), cur, names, fuel as nat + 1));
                    }
                    return Err(
                        ToolLibError::Message(
                            "duplicate word name found in dictionary".to_string(),
                        ),
                    );
                }
                i += 1;
            }
            let ghost this_name = word::name_bytes(self.data(), cur as int - 1);
            proof {
                assert(!names.contains(this_name)) by {
                    if names.contains(this_name) {
                        let x = choose|x: int|
                            0 <= x < names.len() && names[x] == this_name;
                        assert(words@[x].name@ == word.name@);
                    }
                }
                assert(dict_ok(self.data(), cur, names, fuel as nat + 1) == dict_ok(
                    self.data(),
                    rom_u16(self.data(), cur as int + 1),
                    names.push(this_name),
                    fuel as nat,
                ));
            }
            cur = word.next_word_addr;
            words.push(word);
            proof {
                assert(Seq::new(words@.len() as nat, |j: int| words@[j].name@) =~= names.push(
                    this_name,
                ));
            }
        }
        Ok(words)
    }
}

/// Whether two byte vectors hold the same bytes.
pub fn bytes_eq(a: &Vec<u8>, b: &Vec<u8>) -> (r: bool)
    ensures
        r <==> a@ == b@,
{
    if a.len() != b.len() {
        proof {
            assert(a@.len() != b@.len());
        }
        return false;
    }
    let mut i: usize = 0;
    while i < a.len()
        invariant
            i <= a@.len(),
            a@.len() == b@.len(),
            forall|j: int| 0 <= j < i ==> a@[j] == b@[j],
        decreases a@.len() - i,
    {
        if a[i] != b[i] {
            return false;
        }
        i += 1;
    }
    proof {
        assert(a@ =~= b@);
    }
    true
}

} // verus!
