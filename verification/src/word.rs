//! Dictionary words parsed out of the ROM image.

use vstd::prelude::*;
use crate::errors::ToolLibError;
use crate::rom::{Rom, rom_u16, ROM_SIZE};

verus! {

/// Offset between a word's name field address and its link field.
pub const NFATOLFASZ: usize = 1;

/// Whether the name that ends just below `off` reaches a terminator byte
/// (high bit set) before running off the start of the image.
pub open spec fn name_terminates(rom: Seq<u8>, off: int) -> bool
    decreases off + 1,
{
    if off < 0 {
        false
    } else if rom[off] >= 0x80 {
        true
    } else {
        name_terminates(rom, off - 1)
    }
}

/// The name bytes collected walking down from `off`: each byte masked to
/// seven bits, ending at the terminator byte.
pub open spec fn name_bytes(rom: Seq<u8>, off: int) -> Seq<u8>
    decreases off + 1,
{
    if off < 0 {
        Seq::empty()
    } else if rom[off] >= 0x80 {
        seq![rom[off] & 0x7f]
    } else {
        seq![rom[off] & 0x7f] + name_bytes(rom, off - 1)
    }
}

/// Whether a well-formed name ends just below `nfa`: it terminates and its
/// length matches the length field at `nfa`.
pub open spec fn name_ok(rom: Seq<u8>, nfa: int) -> bool {
    &&& 0 <= nfa < ROM_SIZE
    &&& name_terminates(rom, nfa - 1)
    &&& name_bytes(rom, nfa - 1).len() == (rom[nfa] & 0x3f)
}

/// Whether a whole word record parses at `nfa`: a well-formed name and room
/// for the link field.
pub open spec fn word_parse_ok(rom: Seq<u8>, nfa: int) -> bool {
    &&& name_ok(rom, nfa)
    &&& nfa + 2 < ROM_SIZE
}

/// A dictionary word: its name bytes, its name field address, and the
/// address of the previously defined word.
pub struct Word {
    pub name: Vec<u8>,
    pub nfa: u16,
    pub next_word_addr: u16,
}

impl Clone for Word {
    fn clone(&self) -> (r: Self)
        ensures
            r.name@ == self.name@,
            r.nfa == self.nfa,
            r.next_word_addr == self.next_word_addr,
    {
        let mut name: Vec<u8> = Vec::new();
        let mut i: usize = 0;
        while i < self.name.len()
            invariant
                i <= self.name@.len(),
                name@ == self.name@.take(i as int),
            decreases self.name@.len() - i,
        {
            name.push(self.name[i]);
            proof {
                assert(name@ =~= self.name@.take(i + 1));
            }
            i += 1;
        }
        proof {
            assert(self.name@.take(self.name@.len() as int) =~= self.name@);
        }
        Word { name, nfa: self.nfa, next_word_addr: self.next_word_addr }
    }
}

impl Word {
    /// Parse the word record at `nfa`: read its name and its link field.
    pub fn from_rom(rom: &Rom, nfa: u16) -> (r: Result<Word, ToolLibError>)
        requires
            rom.wf(),
        ensures
            word_parse_ok(rom.data(), nfa as int) ==> (r matches Ok(w) && w.name@ == name_bytes(
                rom.data(),
                nfa as int - 1,
            ) && w.nfa == nfa && w.next_word_addr == rom_u16(rom.data(), nfa as int + 1)),
            !word_parse_ok(rom.data(), nfa as int) ==> r is Err,
    {
        let name = match Self::read_name(rom, nfa) {
            Ok(n) => n,
            Err(e) => {
                return Err(e);
            },
        };
        if (nfa as usize) + 2 >= ROM_SIZE {
            return Err(ToolLibError::Message("word record runs past the ROM end".to_string()));
        }
        let next_word_addr = rom.get_u16(nfa as usize + NFATOLFASZ);
        Ok(Word { name, nfa, next_word_addr })
    }

    /// Read the name whose length field sits at `nfa`: walk down from
    /// `nfa - 1` collecting seven-bit bytes until the terminator, then check
    /// the collected length against the length field.
    pub fn read_name(rom: &Rom, nfa: u16) -> (r: Result<Vec<u8>, ToolLibError>)
        requires
            rom.wf(),
        ensures
            name_ok(rom.data(), nfa as int) ==> (r matches Ok(n) && n@ == name_bytes(
                rom.data(),
                nfa as int - 1,
            )),
            !name_ok(rom.data(), nfa as int) ==> r is Err,
    {
        let ghost d = rom.data();
        if (nfa as usize) >= ROM_SIZE {
            return Err(ToolLibError::Message("word name address is out of range".to_string()));
        }
        let word_len: usize = (rom.get_u8(nfa as usize) & 0x3F) as usize;
        if nfa == 0 {
            proof {
                assert(!name_terminates(d, -1));
            }
            return Err(ToolLibError::Message("word name has no terminator".to_string()));
        }
        let mut bytes: Vec<u8> = Vec::new();
        let mut offset: usize = (nfa as usize) - 1;
        loop
            invariant_except_break
                name_terminates(d, offset as int) ==> name_bytes(d, nfa as int - 1) == bytes@
                    + name_bytes(d, offset as int),
            invariant
                rom.wf(),
                d == rom.data(),
                offset < nfa,
                (nfa as usize) < ROM_SIZE,
                name_terminates(d, nfa as int - 1) == name_terminates(d, offset as int),
            ensures
                name_terminates(d, nfa as int - 1),
                bytes@ == name_bytes(d, nfa as int - 1),
            decreases offset,
        {
            let c = rom.get_u8(offset);
            bytes.push(c & 0x7F);
            if c >= 0x80 {
                proof {
                    assert(name_bytes(d, offset as int) =~= seq![d[offset as int] & 0x7f]);
                    assert(bytes@ =~= bytes@.drop_last() + name_bytes(d, offset as int));
                }
                break ;
            }
            if offset == 0 {
                proof {
                    assert(!name_terminates(d, -1));
                }
                return Err(ToolLibError::Message("word name has no terminator".to_string()));
            }
            proof {
                assert(name_bytes(d, offset as int) == seq![d[offset as int] & 0x7f] + name_bytes(
                    d,
                    offset as int - 1,
                ));
                if name_terminates(d, offset as int - 1) {
                    assert(bytes@.drop_last() + name_bytes(d, offset as int) =~= bytes@
                        + name_bytes(d, offset as int - 1));
                }
            }
            offset -= 1;
        }
        if bytes.len() != word_len {
            proof {
                assert(!name_ok(d, nfa as int));
            }
            return Err(ToolLibError::Message("word name length field does not match".to_string()));
        }
        Ok(bytes)
    }
}

} // verus!
