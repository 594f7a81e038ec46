//! The fixed symbol table: a bijection between 31 frequent byte values and
//! the 5-bit codes 0 through 30, with code 31 reserved as the escape
//! sentinel.

use crate::SqueezeError;
use vstd::prelude::*;

verus! {

/// How many symbols the alphabet holds.  Equal to the escape sentinel,
/// which is the first code that names no symbol.
pub const TABLE_SIZE: u8 = 31;

/// The 5-bit code of byte value `b`: its position in the fixed alphabet,
/// or 31 when `b` is not in the alphabet.
pub open spec fn code_of(b: nat) -> nat {
    if b == 101 {
        0  // e
    } else if b == 116 {
        1  // t
    } else if b == 97 {
        2  // a
    } else if b == 105 {
        3  // i
    } else if b == 34 {
        4  // "
    } else if b == 110 {
        5  // n
    } else if b == 32 {
        6  // space
    } else if b == 115 {
        7  // s
    } else if b == 111 {
        8  // o
    } else if b == 108 {
        9  // l
    } else if b == 114 {
        10  // r
    } else if b == 100 {
        11  // d
    } else if b == 99 {
        12  // c
    } else if b == 62 {
        13  // >
    } else if b == 60 {
        14  // <
    } else if b == 47 {
        15  // /
    } else if b == 112 {
        16  // p
    } else if b == 109 {
        17  // m
    } else if b == 45 {
        18  // -
    } else if b == 117 {
        19  // u
    } else if b == 46 {
        20  // .
    } else if b == 104 {
        21  // h
    } else if b == 102 {
        22  // f
    } else if b == 95 {
        23  // _
    } else if b == 61 {
        24  // =
    } else if b == 103 {
        25  // g
    } else if b == 58 {
        26  // :
    } else if b == 98 {
        27  // b
    } else if b == 48 {
        28  // 0
    } else if b == 121 {
        29  // y
    } else if b == 10 {
        30  // newline
    } else {
        31
    }
}

/// The byte value that code `c` names, for codes 0 through 30.
pub open spec fn sym_of(c: nat) -> nat {
    if c == 0 {
        101  // e
    } else if c == 1 {
        116  // t
    } else if c == 2 {
        97  // a
    } else if c == 3 {
        105  // i
    } else if c == 4 {
        34  // "
    } else if c == 5 {
        110  // n
    } else if c == 6 {
        32  // space
    } else if c == 7 {
        115  // s
    } else if c == 8 {
        111  // o
    } else if c == 9 {
        108  // l
    } else if c == 10 {
        114  // r
    } else if c == 11 {
        100  // d
    } else if c == 12 {
        99  // c
    } else if c == 13 {
        62  // >
    } else if c == 14 {
        60  // <
    } else if c == 15 {
        47  // /
    } else if c == 16 {
        112  // p
    } else if c == 17 {
        109  // m
    } else if c == 18 {
        45  // -
    } else if c == 19 {
        117  // u
    } else if c == 20 {
        46  // .
    } else if c == 21 {
        104  // h
    } else if c == 22 {
        102  // f
    } else if c == 23 {
        95  // _
    } else if c == 24 {
        61  // =
    } else if c == 25 {
        103  // g
    } else if c == 26 {
        58  // :
    } else if c == 27 {
        98  // b
    } else if c == 28 {
        48  // 0
    } else if c == 29 {
        121  // y
    } else {
        10  // newline
    }
}

/// Every code below 31 names an ASCII byte, and looking that byte up in
/// the forward direction gives the code back.
pub proof fn lemma_sym_code(c: nat)
    requires
        c < 31,
    ensures
        sym_of(c) < 128,
        code_of(sym_of(c)) == c,
{
}

/// The forward table never leaves the code range, and every byte with a
/// code below 31 is the symbol that code names.
pub proof fn lemma_code_sym(b: nat)
    ensures
        code_of(b) <= 31,
        code_of(b) < 31 ==> sym_of(code_of(b)) == b,
{
}

/// Characters with the same scalar value are the same character.
proof fn lemma_char_eq(c1: char, c2: char)
    requires
        c1 as u32 == c2 as u32,
    ensures
        c1 == c2,
{
}

/// A static bijection between the 31-symbol alphabet and the codes 0-30:
/// a 256-entry forward array (byte to code, 31 for "not in the alphabet")
/// and a 31-entry reverse array (code to symbol).
pub struct Encoder {
    letters: Vec<u8>,
    codes: Vec<char>,
}

impl Encoder {
    /// The forward array: byte value to 5-bit code.
    pub closed spec fn forward(&self) -> Seq<u8> {
        self.letters@
    }

    /// The reverse array: code to symbol.
    pub closed spec fn backward(&self) -> Seq<char> {
        self.codes@
    }

    /// Both arrays hold exactly the fixed alphabet's mapping.
    pub closed spec fn wf(&self) -> bool {
        &&& self.letters@.len() == 256
        &&& (forall|b: int| 0 <= b < 256 ==> self.letters@[b] as nat == code_of(b as nat))
        &&& self.codes@.len() == 31
        &&& (forall|c: int| 0 <= c < 31 ==> self.codes@[c] as u32 as nat == sym_of(c as nat))
    }

    /// Build the table: the reverse array is the alphabet in code order,
    /// and the forward array is filled by scanning the reverse array for
    /// each of the 256 byte values.
    pub fn new() -> (r: Encoder)
        ensures
            r.wf(),
    {
        let mut codes: Vec<char> = Vec::new();
        codes.push('e');
        codes.push('t');
        codes.push('a');
        codes.push('i');
        codes.push('"');
        codes.push('n');
        codes.push(' ');
        codes.push('s');
        codes.push('o');
        codes.push('l');
        codes.push('r');
        codes.push('d');
        codes.push('c');
        codes.push('>');
        codes.push('<');
        codes.push('/');
        codes.push('p');
        codes.push('m');
        codes.push('-');
        codes.push('u');
        codes.push('.');
        codes.push('h');
        codes.push('f');
        codes.push('_');
        codes.push('=');
        codes.push('g');
        codes.push(':');
        codes.push('b');
        codes.push('0');
        codes.push('y');
        codes.push('\n');
        proof {
            assert(forall|c: int|
                0 <= c < 31 ==> codes@[c] as u32 as nat == sym_of(c as nat));
        }
        let mut letters: Vec<u8> = Vec::new();
        let mut i: usize = 0;
        while i < 256
            invariant
                i <= 256,
                letters@.len() == i,
                forall|b: int| 0 <= b < i ==> letters@[b] as nat == code_of(b as nat),
                codes@.len() == 31,
                forall|c: int| 0 <= c < 31 ==> codes@[c] as u32 as nat == sym_of(c as nat),
            decreases 256 - i,
        {
            let ch = (i as u8) as char;
            let mut pos: u8 = 0;
            let mut found: bool = false;
            let mut code: u8 = TABLE_SIZE;
            while pos < TABLE_SIZE && !found
                invariant
                    pos <= 31,
                    i < 256,
                    codes@.len() == 31,
                    forall|c: int| 0 <= c < 31 ==> codes@[c] as u32 as nat == sym_of(c as nat),
                    ch as u32 == i,
                    !found ==> code == 31 && (forall|p: int| 0 <= p < pos ==> codes@[p] != ch),
                    found ==> code as nat == code_of(i as nat),
                decreases 31 - pos,
            {
                if codes[pos as usize] == ch {
                    proof {
                        lemma_sym_code(pos as nat);
                    }
                    code = pos;
                    found = true;
                }
                pos = pos + 1;
            }
            proof {
                if !found {
                    lemma_code_sym(i as nat);
                    assert forall|c: nat| c < 31 implies sym_of(c) != i as nat by {
                        assert(codes@[c as int] != ch);
                        assert(codes@[c as int] as u32 as nat == sym_of(c));
                        if sym_of(c) == i as nat {
                            lemma_char_eq(codes@[c as int], ch);
                        }
                    }
                    assert(code_of(i as nat) == 31);
                }
            }
            letters.push(code);
            i = i + 1;
        }
        Encoder { letters, codes }
    }

    /// Encode an ASCII character as its squeezed 5-bit code.  A character
    /// the alphabet lacks yields the escape code 31; a non-ASCII character
    /// is refused.
    pub fn encode(&self, ch: char) -> (r: Result<u8, SqueezeError>)
        requires
            self.wf(),
        ensures
            match r {
                Ok(code) => {
                    &&& (ch as u32) < 128
                    &&& code as nat == code_of(ch as u32 as nat)
                    &&& code <= 31
                },
                Err(e) => (ch as u32) >= 128 && e == SqueezeError::UnsupportedCharacter,
            },
    {
        let u = ch as u32;
        if u >= 128 {
            Err(SqueezeError::UnsupportedCharacter)
        } else {
            proof {
                lemma_code_sym(u as nat);
            }
            Ok(self.letters[u as usize])
        }
    }

    /// Decode a 5-bit code back to the character it names.  Codes 31 and
    /// above name no character: 31 is the escape sentinel, which callers
    /// treat before decoding.
    pub fn decode(&self, code: u8) -> (r: Option<char>)
        requires
            self.wf(),
        ensures
            match r {
                Some(ch) => {
                    &&& code < 31
                    &&& ch == sym_of(code as nat) as u8 as char
                    &&& ch as u32 as nat == sym_of(code as nat)
                },
                None => code >= 31,
            },
    {
        if code >= TABLE_SIZE {
            None
        } else {
            let ch = self.codes[code as usize];
            proof {
                lemma_sym_code(code as nat);
                lemma_char_eq(ch, sym_of(code as nat) as u8 as char);
            }
            Some(ch)
        }
    }
}

/// Symbol table construction is deterministic: any two well-formed tables
/// are identical, forward and reverse arrays alike.
pub proof fn lemma_table_idempotent(e1: &Encoder, e2: &Encoder)
    requires
        e1.wf(),
        e2.wf(),
    ensures
        e1.forward() == e2.forward(),
        e1.backward() == e2.backward(),
{
    assert forall|b: int| 0 <= b < 256 implies e1.forward()[b] == e2.forward()[b] by {
        assert(e1.forward()[b] as nat == code_of(b as nat));
        assert(e2.forward()[b] as nat == code_of(b as nat));
    }
    assert forall|c: int| 0 <= c < 31 implies e1.backward()[c] == e2.backward()[c] by {
        assert(e1.backward()[c] as u32 as nat == sym_of(c as nat));
        assert(e2.backward()[c] as u32 as nat == sym_of(c as nat));
        lemma_char_eq(e1.backward()[c], e2.backward()[c]);
    }
    assert(e1.forward() =~= e2.forward());
    assert(e1.backward() =~= e2.backward());
}

} // verus!
