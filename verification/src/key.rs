//! The twelve chromatic roots and their spellings.

use vstd::prelude::*;

use crate::text::{all_ascii, ascii_lower, lowercase_of, trimmed, trim_start_of, trim_end_of};

verus! {

/// The 12 chromatic roots.
#[derive(Clone, Copy, PartialEq, Eq, Structural, Hash, Debug)]
pub enum Key {
    C,
    Cs,
    D,
    Ds,
    E,
    F,
    Fs,
    G,
    Gs,
    A,
    As,
    B,
}

/// Canonical display spelling of a key.
pub open spec fn key_name(k: Key) -> Seq<char> {
    match k {
        Key::C => seq!['C'],
        Key::Cs => seq!['C', '#'],
        Key::D => seq!['D'],
        Key::Ds => seq!['D', '#'],
        Key::E => seq!['E'],
        Key::F => seq!['F'],
        Key::Fs => seq!['F', '#'],
        Key::G => seq!['G'],
        Key::Gs => seq!['G', '#'],
        Key::A => seq!['A'],
        Key::As => seq!['A', '#'],
        Key::B => seq!['B'],
    }
}

/// Lowercase spellings that name a key.
pub open spec fn key_aliases(k: Key) -> Seq<Seq<char>> {
    match k {
        Key::C => seq![seq!['c']],
        Key::Cs => seq![
            seq!['c', '#'],
            seq!['c', 's'],
            seq!['c', 's', 'h', 'a', 'r', 'p'],
            seq!['d', 'b'],
            seq!['d', 'f', 'l', 'a', 't'],
        ],
        Key::D => seq![seq!['d']],
        Key::Ds => seq![
            seq!['d', '#'],
            seq!['d', 's'],
            seq!['d', 's', 'h', 'a', 'r', 'p'],
            seq!['e', 'b'],
            seq!['e', 'f', 'l', 'a', 't'],
        ],
        Key::E => seq![seq!['e']],
        Key::F => seq![seq!['f']],
        Key::Fs => seq![
            seq!['f', '#'],
            seq!['f', 's'],
            seq!['f', 's', 'h', 'a', 'r', 'p'],
            seq!['g', 'b'],
            seq!['g', 'f', 'l', 'a', 't'],
        ],
        Key::G => seq![seq!['g']],
        Key::Gs => seq![
            seq!['g', '#'],
            seq!['g', 's'],
            seq!['g', 's', 'h', 'a', 'r', 'p'],
            seq!['a', 'b'],
            seq!['a', 'f', 'l', 'a', 't'],
        ],
        Key::A => seq![seq!['a']],
        Key::As => seq![
            seq!['a', '#'],
            seq!['a', 's'],
            seq!['a', 's', 'h', 'a', 'r', 'p'],
            seq!['b', 'b'],
            seq!['b', 'f', 'l', 'a', 't'],
        ],
        Key::B => seq![seq!['b']],
    }
}

/// How a speech engine should say a key: sharps spelled out, since a bare
/// `#` is read as "hash".
pub open spec fn key_spoken(k: Key) -> Seq<char> {
    match k {
        Key::C => seq!['C'],
        Key::Cs => seq!['C', ' ', 's', 'h', 'a', 'r', 'p'],
        Key::D => seq!['D'],
        Key::Ds => seq!['D', ' ', 's', 'h', 'a', 'r', 'p'],
        Key::E => seq!['E'],
        Key::F => seq!['F'],
        Key::Fs => seq!['F', ' ', 's', 'h', 'a', 'r', 'p'],
        Key::G => seq!['G'],
        Key::Gs => seq!['G', ' ', 's', 'h', 'a', 'r', 'p'],
        Key::A => seq!['A'],
        Key::As => seq!['A', ' ', 's', 'h', 'a', 'r', 'p'],
        Key::B => seq!['B'],
    }
}

/// Position of a key in the chromatic order starting at C.
pub open spec fn key_index(k: Key) -> int {
    match k {
        Key::C => 0,
        Key::Cs => 1,
        Key::D => 2,
        Key::Ds => 3,
        Key::E => 4,
        Key::F => 5,
        Key::Fs => 6,
        Key::G => 7,
        Key::Gs => 8,
        Key::A => 9,
        Key::As => 10,
        Key::B => 11,
    }
}

/// The key at a position of the chromatic order starting at C.
pub open spec fn key_at(i: int) -> Key
    recommends
        0 <= i < 12,
{
    if i == 0 {
        Key::C
    } else if i == 1 {
        Key::Cs
    } else if i == 2 {
        Key::D
    } else if i == 3 {
        Key::Ds
    } else if i == 4 {
        Key::E
    } else if i == 5 {
        Key::F
    } else if i == 6 {
        Key::Fs
    } else if i == 7 {
        Key::G
    } else if i == 8 {
        Key::Gs
    } else if i == 9 {
        Key::A
    } else if i == 10 {
        Key::As
    } else {
        Key::B
    }
}

/// The first key, in chromatic order from C, that has `a` among its aliases.
pub open spec fn key_for_alias(a: Seq<char>) -> Option<Key> {
    if key_aliases(Key::C).contains(a) {
        Some(Key::C)
    } else if key_aliases(Key::Cs).contains(a) {
        Some(Key::Cs)
    } else if key_aliases(Key::D).contains(a) {
        Some(Key::D)
    } else if key_aliases(Key::Ds).contains(a) {
        Some(Key::Ds)
    } else if key_aliases(Key::E).contains(a) {
        Some(Key::E)
    } else if key_aliases(Key::F).contains(a) {
        Some(Key::F)
    } else if key_aliases(Key::Fs).contains(a) {
        Some(Key::Fs)
    } else if key_aliases(Key::G).contains(a) {
        Some(Key::G)
    } else if key_aliases(Key::Gs).contains(a) {
        Some(Key::Gs)
    } else if key_aliases(Key::A).contains(a) {
        Some(Key::A)
    } else if key_aliases(Key::As).contains(a) {
        Some(Key::As)
    } else if key_aliases(Key::B).contains(a) {
        Some(Key::B)
    } else {
        None
    }
}

proof fn lemma_key_at_values()
    ensures
        key_at(0) == Key::C, key_at(1) == Key::Cs, key_at(2) == Key::D, key_at(3) == Key::Ds,
        key_at(4) == Key::E, key_at(5) == Key::F, key_at(6) == Key::Fs, key_at(7) == Key::G,
        key_at(8) == Key::Gs, key_at(9) == Key::A, key_at(10) == Key::As, key_at(11) == Key::B,
{
}

proof fn lemma_key_for_alias_first(a: Seq<char>, i: int)
    requires
        0 <= i < 12,
        key_aliases(key_at(i)).contains(a),
        forall|j: int| 0 <= j < i ==> !key_aliases(#[trigger] key_at(j)).contains(a),
    ensures
        key_for_alias(a) == Some(key_at(i)),
{
    lemma_key_at_values();
}

proof fn lemma_key_for_alias_none(a: Seq<char>)
    requires
        forall|j: int| 0 <= j < 12 ==> !key_aliases(#[trigger] key_at(j)).contains(a),
    ensures
        key_for_alias(a) is None,
{
    lemma_key_at_values();
}

/// Positions and keys correspond one to one.
pub proof fn lemma_key_index_inverse(k: Key)
    ensures
        0 <= key_index(k) < 12,
        key_at(key_index(k)) == k,
{
}

impl Key {
    /// The 12 chromatic roots in order from C.
    pub fn all() -> (r: [Key; 12])
        ensures
            forall|i: int| 0 <= i < 12 ==> r@[i] == key_at(i),
    {
        proof {
            lemma_key_at_values();
        }
        [
            Key::C,
            Key::Cs,
            Key::D,
            Key::Ds,
            Key::E,
            Key::F,
            Key::Fs,
            Key::G,
            Key::Gs,
            Key::A,
            Key::As,
            Key::B,
        ]
    }

    /// Canonical display string, e.g. "C#".
    pub fn as_str(self) -> (r: &'static str)
        ensures
            r@ == key_name(self),
    {
        match self {
            Key::C => {
                proof { reveal_strlit("C"); }
                "C"
            },
            Key::Cs => {
                proof { reveal_strlit("C#"); }
                "C#"
            },
            Key::D => {
                proof { reveal_strlit("D"); }
                "D"
            },
            Key::Ds => {
                proof { reveal_strlit("D#"); }
                "D#"
            },
            Key::E => {
                proof { reveal_strlit("E"); }
                "E"
            },
            Key::F => {
                proof { reveal_strlit("F"); }
                "F"
            },
            Key::Fs => {
                proof { reveal_strlit("F#"); }
                "F#"
            },
            Key::G => {
                proof { reveal_strlit("G"); }
                "G"
            },
            Key::Gs => {
                proof { reveal_strlit("G#"); }
                "G#"
            },
            Key::A => {
                proof { reveal_strlit("A"); }
                "A"
            },
            Key::As => {
                proof { reveal_strlit("A#"); }
                "A#"
            },
            Key::B => {
                proof { reveal_strlit("B"); }
                "B"
            },
        }
    }

    /// TTS spelling: the speech engine reads "#" as "hash", so sharps are spelled out.
    pub fn spoken(self) -> (r: &'static str)
        ensures
            r@ == key_spoken(self),
    {
        match self {
            Key::C => {
                proof { reveal_strlit("C"); }
                "C"
            },
            Key::Cs => {
                proof { reveal_strlit("C sharp"); }
                "C sharp"
            },
            Key::D => {
                proof { reveal_strlit("D"); }
                "D"
            },
            Key::Ds => {
                proof { reveal_strlit("D sharp"); }
                "D sharp"
            },
            Key::E => {
                proof { reveal_strlit("E"); }
                "E"
            },
            Key::F => {
                proof { reveal_strlit("F"); }
                "F"
            },
            Key::Fs => {
                proof { reveal_strlit("F sharp"); }
                "F sharp"
            },
            Key::G => {
                proof { reveal_strlit("G"); }
                "G"
            },
            Key::Gs => {
                proof { reveal_strlit("G sharp"); }
                "G sharp"
            },
            Key::A => {
                proof { reveal_strlit("A"); }
                "A"
            },
            Key::As => {
                proof { reveal_strlit("A sharp"); }
                "A sharp"
            },
            Key::B => {
                proof { reveal_strlit("B"); }
                "B"
            },
        }
    }

    /// Position in the chromatic order starting at C (C is 0, B is 11).
    pub fn index(self) -> (r: usize)
        ensures
            r == key_index(self),
            r < 12,
    {
        match self {
            Key::C => 0,
            Key::Cs => 1,
            Key::D => 2,
            Key::Ds => 3,
            Key::E => 4,
            Key::F => 5,
            Key::Fs => 6,
            Key::G => 7,
            Key::Gs => 8,
            Key::A => 9,
            Key::As => 10,
            Key::B => 11,
        }
    }

    /// The key at position `i` of the chromatic order starting at C.
    pub fn from_index(i: usize) -> (r: Key)
        requires
            i < 12,
        ensures
            r == key_at(i as int),
            key_index(r) == i,
    {
        if i == 0 {
            Key::C
        } else if i == 1 {
            Key::Cs
        } else if i == 2 {
            Key::D
        } else if i == 3 {
            Key::Ds
        } else if i == 4 {
            Key::E
        } else if i == 5 {
            Key::F
        } else if i == 6 {
            Key::Fs
        } else if i == 7 {
            Key::G
        } else if i == 8 {
            Key::Gs
        } else if i == 9 {
            Key::A
        } else if i == 10 {
            Key::As
        } else {
            Key::B
        }
    }

    /// The first key, in chromatic order from C, listing `norm` among its
    /// aliases. `norm` is compared as given: no trimming, no case folding.
    pub fn from_alias(norm: &str) -> (r: Option<Key>)
        ensures
            r == key_for_alias(norm@),
    {
        let mut i: usize = 0;
        while i < 12
            invariant
                i <= 12,
                forall|j: int| 0 <= j < i ==> !key_aliases(#[trigger] key_at(j)).contains(norm@),
            decreases 12 - i,
        {
            let k = Key::from_index(i);
            let al = k.aliases();
            let mut j: usize = 0;
            while j < al.len()
                invariant
                    i < 12,
                    k == key_at(i as int),
                    forall|jj: int| 0 <= jj < i ==> !key_aliases(#[trigger] key_at(jj)).contains(norm@),
                    j <= al@.len(),
                    al@.map_values(|a: &str| a@) == key_aliases(k),
                    forall|m: int| 0 <= m < j ==> (#[trigger] al@[m])@ != norm@,
                decreases al@.len() - j,
            {
                if crate::text::str_eq(al[j], norm) {
                    proof {
                        assert(key_aliases(k)[j as int] == norm@);
                        lemma_key_for_alias_first(norm@, i as int);
                    }
                    return Some(k);
                }
                j += 1;
            }
            proof {
                assert forall|m: int| 0 <= m < key_aliases(k).len() implies key_aliases(k)[m] != norm@ by {
                    assert(key_aliases(k)[m] == al@[m]@);
                }
            }
            i += 1;
        }
        proof {
            lemma_key_for_alias_none(norm@);
        }
        None
    }

    /// Parse a key from an API/UI string (sharps and flats): surrounding
    /// whitespace is ignored and case folded before the aliases are matched.
    pub fn parse(s: &str) -> (r: Option<Key>)
        ensures
            r == key_for_alias(lowercase_of(trimmed(s@))),
            all_ascii(trimmed(s@)) ==> r == key_for_alias(
                trimmed(s@).map_values(|c: char| ascii_lower(c)),
            ),
    {
        let t = crate::text::trim_str(s);
        let norm = crate::text::to_lowercase(t);
        Key::from_alias(norm.as_str())
    }

    /// Lowercase spellings to recognise this key in a filename stem.
    pub fn aliases(self) -> (r: &'static [&'static str])
        ensures
            r@.map_values(|a: &str| a@) == key_aliases(self),
    {
        match self {
            Key::C => {
                proof {
                    reveal_strlit("c");
                }
                let arr: &'static [&'static str; 1] = &["c"];
                let r: &'static [&'static str] = vstd::array::array_as_slice(arr);
                assert(r@ == arr@ && r@.len() == 1);
                assert(r@[0]@ == seq!['c']);
                assert(r@.map_values(|a: &str| a@) =~= key_aliases(self));
                r
            },
            Key::Cs => {
                proof {
                    reveal_strlit("c#");
                    reveal_strlit("cs");
                    reveal_strlit("csharp");
                    reveal_strlit("db");
                    reveal_strlit("dflat");
                }
                let arr: &'static [&'static str; 5] = &["c#", "cs", "csharp", "db", "dflat"];
                let r: &'static [&'static str] = vstd::array::array_as_slice(arr);
                assert(r@ == arr@ && r@.len() == 5);
                assert(r@[0]@ == seq!['c', '#']);
                assert(r@[1]@ == seq!['c', 's']);
                assert(r@[2]@ == seq!['c', 's', 'h', 'a', 'r', 'p']);
                assert(r@[3]@ == seq!['d', 'b']);
                assert(r@[4]@ == seq!['d', 'f', 'l', 'a', 't']);
                assert(r@.map_values(|a: &str| a@) =~= key_aliases(self));
                r
            },
            Key::D => {
                proof {
                    reveal_strlit("d");
                }
                let arr: &'static [&'static str; 1] = &["d"];
                let r: &'static [&'static str] = vstd::array::array_as_slice(arr);
                assert(r@ == arr@ && r@.len() == 1);
                assert(r@[0]@ == seq!['d']);
                assert(r@.map_values(|a: &str| a@) =~= key_aliases(self));
                r
            },
            Key::Ds => {
                proof {
                    reveal_strlit("d#");
                    reveal_strlit("ds");
                    reveal_strlit("dsharp");
                    reveal_strlit("eb");
                    reveal_strlit("eflat");
                }
                let arr: &'static [&'static str; 5] = &["d#", "ds", "dsharp", "eb", "eflat"];
                let r: &'static [&'static str] = vstd::array::array_as_slice(arr);
                assert(r@ == arr@ && r@.len() == 5);
                assert(r@[0]@ == seq!['d', '#']);
                assert(r@[1]@ == seq!['d', 's']);
                assert(r@[2]@ == seq!['d', 's', 'h', 'a', 'r', 'p']);
                assert(r@[3]@ == seq!['e', 'b']);
                assert(r@[4]@ == seq!['e', 'f', 'l', 'a', 't']);
                assert(r@.map_values(|a: &str| a@) =~= key_aliases(self));
                r
            },
            Key::E => {
                proof {
                    reveal_strlit("e");
                }
                let arr: &'static [&'static str; 1] = &["e"];
                let r: &'static [&'static str] = vstd::array::array_as_slice(arr);
                assert(r@ == arr@ && r@.len() == 1);
                assert(r@[0]@ == seq!['e']);
                assert(r@.map_values(|a: &str| a@) =~= key_aliases(self));
                r
            },
            Key::F => {
                proof {
                    reveal_strlit("f");
                }
                let arr: &'static [&'static str; 1] = &["f"];
                let r: &'static [&'static str] = vstd::array::array_as_slice(arr);
                assert(r@ == arr@ && r@.len() == 1);
                assert(r@[0]@ == seq!['f']);
                assert(r@.map_values(|a: &str| a@) =~= key_aliases(self));
                r
            },
            Key::Fs => {
                proof {
                    reveal_strlit("f#");
                    reveal_strlit("fs");
                    reveal_strlit("fsharp");
                    reveal_strlit("gb");
                    reveal_strlit("gflat");
                }
                let arr: &'static [&'static str; 5] = &["f#", "fs", "fsharp", "gb", "gflat"];
                let r: &'static [&'static str] = vstd::array::array_as_slice(arr);
                assert(r@ == arr@ && r@.len() == 5);
                assert(r@[0]@ == seq!['f', '#']);
                assert(r@[1]@ == seq!['f', 's']);
                assert(r@[2]@ == seq!['f', 's', 'h', 'a', 'r', 'p']);
                assert(r@[3]@ == seq!['g', 'b']);
                assert(r@[4]@ == seq!['g', 'f', 'l', 'a', 't']);
                assert(r@.map_values(|a: &str| a@) =~= key_aliases(self));
                r
            },
            Key::G => {
                proof {
                    reveal_strlit("g");
                }
                let arr: &'static [&'static str; 1] = &["g"];
                let r: &'static [&'static str] = vstd::array::array_as_slice(arr);
                assert(r@ == arr@ && r@.len() == 1);
                assert(r@[0]@ == seq!['g']);
                assert(r@.map_values(|a: &str| a@) =~= key_aliases(self));
                r
            },
            Key::Gs => {
                proof {
                    reveal_strlit("g#");
                    reveal_strlit("gs");
                    reveal_strlit("gsharp");
                    reveal_strlit("ab");
                    reveal_strlit("aflat");
                }
                let arr: &'static [&'static str; 5] = &["g#", "gs", "gsharp", "ab", "aflat"];
                let r: &'static [&'static str] = vstd::array::array_as_slice(arr);
                assert(r@ == arr@ && r@.len() == 5);
                assert(r@[0]@ == seq!['g', '#']);
                assert(r@[1]@ == seq!['g', 's']);
                assert(r@[2]@ == seq!['g', 's', 'h', 'a', 'r', 'p']);
                assert(r@[3]@ == seq!['a', 'b']);
                assert(r@[4]@ == seq!['a', 'f', 'l', 'a', 't']);
                assert(r@.map_values(|a: &str| a@) =~= key_aliases(self));
                r
            },
            Key::A => {
                proof {
                    reveal_strlit("a");
                }
                let arr: &'static [&'static str; 1] = &["a"];
                let r: &'static [&'static str] = vstd::array::array_as_slice(arr);
                assert(r@ == arr@ && r@.len() == 1);
                assert(r@[0]@ == seq!['a']);
                assert(r@.map_values(|a: &str| a@) =~= key_aliases(self));
                r
            },
            Key::As => {
                proof {
                    reveal_strlit("a#");
                    reveal_strlit("as");
                    reveal_strlit("asharp");
                    reveal_strlit("bb");
                    reveal_strlit("bflat");
                }
                let arr: &'static [&'static str; 5] = &["a#", "as", "asharp", "bb", "bflat"];
                let r: &'static [&'static str] = vstd::array::array_as_slice(arr);
                assert(r@ == arr@ && r@.len() == 5);
                assert(r@[0]@ == seq!['a', '#']);
                assert(r@[1]@ == seq!['a', 's']);
                assert(r@[2]@ == seq!['a', 's', 'h', 'a', 'r', 'p']);
                assert(r@[3]@ == seq!['b', 'b']);
                assert(r@[4]@ == seq!['b', 'f', 'l', 'a', 't']);
                assert(r@.map_values(|a: &str| a@) =~= key_aliases(self));
                r
            },
            Key::B => {
                proof {
                    reveal_strlit("b");
                }
                let arr: &'static [&'static str; 1] = &["b"];
                let r: &'static [&'static str] = vstd::array::array_as_slice(arr);
                assert(r@ == arr@ && r@.len() == 1);
                assert(r@[0]@ == seq!['b']);
                assert(r@.map_values(|a: &str| a@) =~= key_aliases(self));
                r
            },
        }
    }
}

/// Distinct keys share no alias, so an alias names exactly one key.
pub proof fn lemma_aliases_disjoint(k1: Key, k2: Key, a: Seq<char>)
    requires
        key_aliases(k1).contains(a),
        key_aliases(k2).contains(a),
    ensures
        k1 == k2,
{
    let i1 = choose|i: int| 0 <= i < key_aliases(k1).len() && key_aliases(k1)[i] == a;
    let i2 = choose|i: int| 0 <= i < key_aliases(k2).len() && key_aliases(k2)[i] == a;
    assert(key_aliases(k1)[i1].len() == key_aliases(k2)[i2].len());
    assert(key_aliases(k1)[i1][0] == key_aliases(k2)[i2][0]);
    if a.len() > 1 {
        assert(key_aliases(k1)[i1][1] == key_aliases(k2)[i2][1]);
    }
    if a.len() > 2 {
        assert(key_aliases(k1)[i1][2] == key_aliases(k2)[i2][2]);
    }
}

/// Every alias of a key resolves back to that key.
pub proof fn lemma_alias_resolves(k: Key, a: Seq<char>)
    requires
        key_aliases(k).contains(a),
    ensures
        key_for_alias(a) == Some(k),
{
    let r = key_for_alias(a);
    if r is Some {
        assert(key_aliases(r->0).contains(a));
        lemma_aliases_disjoint(k, r->0, a);
    }
}

/// A key's display name has no surrounding whitespace, is ASCII, and its
/// ASCII lowercase is one of its aliases; with the contract of `Key::parse`
/// this gives `Key::parse(k.as_str()) == Some(k)` for every key.
pub proof fn lemma_name_parses_back(k: Key)
    ensures
        trimmed(key_name(k)) == key_name(k),
        all_ascii(key_name(k)),
        key_for_alias(key_name(k).map_values(|c: char| ascii_lower(c))) == Some(k),
{
    let n = key_name(k);
    assert(trim_start_of(n) == n);
    assert(trim_end_of(n) == n);
    let l = n.map_values(|c: char| ascii_lower(c));
    assert(key_aliases(k)[0] =~= l);
    lemma_alias_resolves(k, l);
}

/// Accidentals name the chromatic neighbours of their letter. A natural key
/// (one whose display name is a single letter) is spelled by that letter
/// alone, in lowercase. Appending `b` or `flat` to the letter names the key a
/// semitone below it (for every letter but `c` and `f`, which have no flat
/// spelling); appending `#`, `s` or `sharp` names the key a semitone above it
/// (for every letter but `e` and `b`, which have no sharp spelling).
pub proof fn lemma_accidentals_name_neighbours(k: Key, l: char)
    requires
        key_name(k).len() == 1,
        l == ascii_lower(key_name(k)[0]),
    ensures
        key_aliases(k) == seq![seq![l]],
        key_for_alias(seq![l]) == Some(k),
        l != 'c' && l != 'f' ==> {
            &&& key_for_alias(seq![l, 'b']) is Some
            &&& key_index(key_for_alias(seq![l, 'b'])->0) == key_index(k) - 1
            &&& key_for_alias(seq![l, 'f', 'l', 'a', 't']) == key_for_alias(seq![l, 'b'])
        },
        l != 'e' && l != 'b' ==> {
            &&& key_for_alias(seq![l, '#']) is Some
            &&& key_index(key_for_alias(seq![l, '#'])->0) == key_index(k) + 1
            &&& key_for_alias(seq![l, 's']) == key_for_alias(seq![l, '#'])
            &&& key_for_alias(seq![l, 's', 'h', 'a', 'r', 'p']) == key_for_alias(seq![l, '#'])
        },
{
    assert(key_aliases(k)[0] == seq![l]);
    lemma_alias_resolves(k, seq![l]);
    match k {
        Key::C => {
            assert(key_aliases(Key::Cs)[0] == seq![l, '#']);
            assert(key_aliases(Key::Cs)[1] == seq![l, 's']);
            assert(key_aliases(Key::Cs)[2] == seq![l, 's', 'h', 'a', 'r', 'p']);
            lemma_alias_resolves(Key::Cs, seq![l, '#']);
            lemma_alias_resolves(Key::Cs, seq![l, 's']);
            lemma_alias_resolves(Key::Cs, seq![l, 's', 'h', 'a', 'r', 'p']);
        },
        Key::D => {
            assert(key_aliases(Key::Cs)[3] == seq![l, 'b']);
            assert(key_aliases(Key::Cs)[4] == seq![l, 'f', 'l', 'a', 't']);
            lemma_alias_resolves(Key::Cs, seq![l, 'b']);
            lemma_alias_resolves(Key::Cs, seq![l, 'f', 'l', 'a', 't']);
            assert(key_aliases(Key::Ds)[0] == seq![l, '#']);
            assert(key_aliases(Key::Ds)[1] == seq![l, 's']);
            assert(key_aliases(Key::Ds)[2] == seq![l, 's', 'h', 'a', 'r', 'p']);
            lemma_alias_resolves(Key::Ds, seq![l, '#']);
            lemma_alias_resolves(Key::Ds, seq![l, 's']);
            lemma_alias_resolves(Key::Ds, seq![l, 's', 'h', 'a', 'r', 'p']);
        },
        Key::E => {
            assert(key_aliases(Key::Ds)[3] == seq![l, 'b']);
            assert(key_aliases(Key::Ds)[4] == seq![l, 'f', 'l', 'a', 't']);
            lemma_alias_resolves(Key::Ds, seq![l, 'b']);
            lemma_alias_resolves(Key::Ds, seq![l, 'f', 'l', 'a', 't']);
        },
        Key::F => {
            assert(key_aliases(Key::Fs)[0] == seq![l, '#']);
            assert(key_aliases(Key::Fs)[1] == seq![l, 's']);
            assert(key_aliases(Key::Fs)[2] == seq![l, 's', 'h', 'a', 'r', 'p']);
            lemma_alias_resolves(Key::Fs, seq![l, '#']);
            lemma_alias_resolves(Key::Fs, seq![l, 's']);
            lemma_alias_resolves(Key::Fs, seq![l, 's', 'h', 'a', 'r', 'p']);
        },
        Key::G => {
            assert(key_aliases(Key::Fs)[3] == seq![l, 'b']);
            assert(key_aliases(Key::Fs)[4] == seq![l, 'f', 'l', 'a', 't']);
            lemma_alias_resolves(Key::Fs, seq![l, 'b']);
            lemma_alias_resolves(Key::Fs, seq![l, 'f', 'l', 'a', 't']);
            assert(key_aliases(Key::Gs)[0] == seq![l, '#']);
            assert(key_aliases(Key::Gs)[1] == seq![l, 's']);
            assert(key_aliases(Key::Gs)[2] == seq![l, 's', 'h', 'a', 'r', 'p']);
            lemma_alias_resolves(Key::Gs, seq![l, '#']);
            lemma_alias_resolves(Key::Gs, seq![l, 's']);
            lemma_alias_resolves(Key::Gs, seq![l, 's', 'h', 'a', 'r', 'p']);
        },
        Key::A => {
            assert(key_aliases(Key::Gs)[3] == seq![l, 'b']);
            assert(key_aliases(Key::Gs)[4] == seq![l, 'f', 'l', 'a', 't']);
            lemma_alias_resolves(Key::Gs, seq![l, 'b']);
            lemma_alias_resolves(Key::Gs, seq![l, 'f', 'l', 'a', 't']);
            assert(key_aliases(Key::As)[0] == seq![l, '#']);
            assert(key_aliases(Key::As)[1] == seq![l, 's']);
            assert(key_aliases(Key::As)[2] == seq![l, 's', 'h', 'a', 'r', 'p']);
            lemma_alias_resolves(Key::As, seq![l, '#']);
            lemma_alias_resolves(Key::As, seq![l, 's']);
            lemma_alias_resolves(Key::As, seq![l, 's', 'h', 'a', 'r', 'p']);
        },
        Key::B => {
            assert(key_aliases(Key::As)[3] == seq![l, 'b']);
            assert(key_aliases(Key::As)[4] == seq![l, 'f', 'l', 'a', 't']);
            lemma_alias_resolves(Key::As, seq![l, 'b']);
            lemma_alias_resolves(Key::As, seq![l, 'f', 'l', 'a', 't']);
        },
        _ => {},
    }
}

/// The spoken name of a key is its display name with the sharp sign spelled
/// out: a display name is a letter, optionally followed by `#`; a name ending
/// in `#` is spoken as its letter followed by " sharp", any other name is
/// spoken as it is written.
pub proof fn lemma_spoken_spells_sharps(k: Key)
    ensures
        key_name(k).len() == 1 || (key_name(k).len() == 2 && key_name(k)[1] == '#'),
        key_name(k).last() == '#' ==> key_spoken(k) == seq![key_name(k)[0]] + seq![
            ' ',
            's',
            'h',
            'a',
            'r',
            'p',
        ],
        key_name(k).last() != '#' ==> key_spoken(k) == key_name(k),
{
    let sharp = seq![' ', 's', 'h', 'a', 'r', 'p'];
    assert(seq![key_name(k)[0]] + sharp =~= key_spoken(k) || key_name(k).last() != '#');
}

} // verus!
