use vstd::prelude::*;

verus! {

/// What a byte reads as: bytes map one-to-one onto the first 256 characters.
pub open spec fn byte_char(b: u8) -> char {
    b as char
}

/// Reads a byte buffer as a stream of characters, one byte to one character.
pub struct CharReader {
    pub bytes: Vec<u8>,
    pub pos: usize,
    pub last: char,
}

impl CharReader {
    pub fn new(bytes: Vec<u8>) -> (r: Self)
        ensures
            r.bytes@ == bytes@,
            r.pos == 0,
            r.last == '\0',
    {
        CharReader { bytes, pos: 0, last: '\0' }
    }

    /// The next character, if a byte is left; `last` keeps the one handed out.
    pub fn next(&mut self) -> (c: Option<char>)
        ensures
            old(self).pos < old(self).bytes@.len() ==> c == Some(
                byte_char(old(self).bytes@[old(self).pos as int]),
            ) && final(self).pos == old(self).pos + 1 && final(self).last == byte_char(
                old(self).bytes@[old(self).pos as int],
            ),
            old(self).pos >= old(self).bytes@.len() ==> c is None && *final(self) == *old(self),
            final(self).bytes@ == old(self).bytes@,
    {
        if self.pos < self.bytes.len() {
            let b = self.bytes[self.pos];
            let ch = b as char;
            self.pos = self.pos + 1;
            self.last = ch;
            Some(ch)
        } else {
            None
        }
    }

    /// Every character left in the stream, drained in order.
    pub fn read_all(&mut self) -> (v: Vec<char>)
        requires
            old(self).pos <= old(self).bytes@.len(),
        ensures
            v@ == old(self).bytes@.subrange(
                old(self).pos as int,
                old(self).bytes@.len() as int,
            ).map_values(|b: u8| byte_char(b)),
            final(self).pos == final(self).bytes@.len(),
            final(self).bytes@ == old(self).bytes@,
    {
        let ghost start = self.pos as int;
        let ghost all = self.bytes@;
        let mut v: Vec<char> = Vec::new();
        while self.pos < self.bytes.len()
            invariant
                self.bytes@ == all,
                0 <= start <= self.pos <= all.len(),
                v@ =~= all.subrange(start, self.pos as int).map_values(|b: u8| byte_char(b)),
            decreases all.len() - self.pos,
        {
            let b = self.bytes[self.pos];
            v.push(b as char);
            proof {
                let p = self.pos as int;
                assert(all.subrange(start, p + 1) =~= all.subrange(start, p).push(all[p]));
                assert(all.subrange(start, p + 1).map_values(|b2: u8| byte_char(b2))
                    =~= all.subrange(start, p).map_values(|b2: u8| byte_char(b2)).push(
                    byte_char(all[p]),
                ));
            }
            self.pos = self.pos + 1;
        }
        v
    }
}

} // verus!
