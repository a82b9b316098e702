//! Collision-free names for temporary index files.
//!
//! Intermediate merge and spill outputs are written to files named from a
//! monotonically incrementing counter, formatted as a fixed-width hexadecimal
//! number. Distinct counter values always give distinct names, so one
//! allocator never hands the same name out twice; the surrounding file layer
//! creates each name exclusively and retries with the next counter value if a
//! file of that name already exists.

use vstd::prelude::*;
use vstd::string::StringExecFns;

verus! {

/// The hexadecimal digit character for `d` (below 16).
pub open spec fn hex_digit(d: int) -> char {
    if d == 0 {
        '0'
    } else if d == 1 {
        '1'
    } else if d == 2 {
        '2'
    } else if d == 3 {
        '3'
    } else if d == 4 {
        '4'
    } else if d == 5 {
        '5'
    } else if d == 6 {
        '6'
    } else if d == 7 {
        '7'
    } else if d == 8 {
        '8'
    } else if d == 9 {
        '9'
    } else if d == 10 {
        'a'
    } else if d == 11 {
        'b'
    } else if d == 12 {
        'c'
    } else if d == 13 {
        'd'
    } else if d == 14 {
        'e'
    } else {
        'f'
    }
}

/// The hexadecimal form of `n`: at least `width` digits, zero-padded, most
/// significant first.
pub open spec fn hex_digits(n: nat, width: nat) -> Seq<char>
    decreases n + width,
{
    if n == 0 && width == 0 {
        seq![]
    } else {
        hex_digits(n / 16, if width == 0 {
            0
        } else {
            (width - 1) as nat
        }).push(hex_digit((n % 16) as int))
    }
}

/// The name a counter value formats to: `tmp`, eight or more hexadecimal
/// digits, `.dat`.
pub open spec fn spec_tmp_name(n: nat) -> Seq<char> {
    seq!['t', 'm', 'p'] + hex_digits(n, 8) + seq!['.', 'd', 'a', 't']
}

/// The hexadecimal form determines the value: equal digit strings can only
/// come from equal values.
proof fn lemma_hex_digits_injective(n1: nat, w1: nat, n2: nat, w2: nat)
    requires
        hex_digits(n1, w1) == hex_digits(n2, w2),
    ensures
        n1 == n2,
    decreases n1 + w1,
{
    if n1 == 0 && w1 == 0 {
        if !(n2 == 0 && w2 == 0) {
            assert(hex_digits(n2, w2).len() > 0);
        }
    } else {
        assert(hex_digits(n1, w1).len() > 0);
        assert(!(n2 == 0 && w2 == 0)) by {
            if n2 == 0 && w2 == 0 {
                assert(hex_digits(n2, w2).len() == 0);
            }
        }
        let d1 = (n1 % 16) as int;
        let d2 = (n2 % 16) as int;
        assert(hex_digits(n1, w1).last() == hex_digit(d1));
        assert(hex_digits(n2, w2).last() == hex_digit(d2));
        assert(hex_digit(d1) == hex_digit(d2));
        assert(0 <= d1 < 16 && 0 <= d2 < 16);
        assert(d1 == d2);
        assert(hex_digits(n1, w1).drop_last() =~= hex_digits(
            n1 / 16,
            if w1 == 0 {
                0
            } else {
                (w1 - 1) as nat
            },
        ));
        assert(hex_digits(n2, w2).drop_last() =~= hex_digits(
            n2 / 16,
            if w2 == 0 {
                0
            } else {
                (w2 - 1) as nat
            },
        ));
        lemma_hex_digits_injective(
            n1 / 16,
            if w1 == 0 {
                0
            } else {
                (w1 - 1) as nat
            },
            n2 / 16,
            if w2 == 0 {
                0
            } else {
                (w2 - 1) as nat
            },
        );
        assert(n1 == 16 * (n1 / 16) + n1 % 16);
        assert(n2 == 16 * (n2 / 16) + n2 % 16);
    }
}

/// Distinct counter values always format to distinct file names: one
/// allocator can never hand the same name out twice.
pub proof fn lemma_tmp_names_distinct(n1: nat, n2: nat)
    requires
        n1 != n2,
    ensures
        spec_tmp_name(n1) != spec_tmp_name(n2),
{
    let h1 = hex_digits(n1, 8);
    let h2 = hex_digits(n2, 8);
    if spec_tmp_name(n1) == spec_tmp_name(n2) {
        assert(spec_tmp_name(n1).len() == 7 + h1.len());
        assert(spec_tmp_name(n2).len() == 7 + h2.len());
        assert(h1.len() == h2.len());
        assert forall|i: int| 0 <= i < h1.len() implies h1[i] == h2[i] by {
            assert(spec_tmp_name(n1)[3 + i] == h1[i]);
            assert(spec_tmp_name(n2)[3 + i] == h2[i]);
        }
        assert(h1 =~= h2);
        lemma_hex_digits_injective(n1, 8, n2, 8);
    }
}

/// The single hexadecimal digit as a string.
fn hex_char_str(d: u8) -> (r: &'static str)
    requires
        d < 16,
    ensures
        r@ == seq![hex_digit(d as int)],
{
    if d == 0 {
        proof { reveal_strlit("0"); }
        "0"
    } else if d == 1 {
        proof { reveal_strlit("1"); }
        "1"
    } else if d == 2 {
        proof { reveal_strlit("2"); }
        "2"
    } else if d == 3 {
        proof { reveal_strlit("3"); }
        "3"
    } else if d == 4 {
        proof { reveal_strlit("4"); }
        "4"
    } else if d == 5 {
        proof { reveal_strlit("5"); }
        "5"
    } else if d == 6 {
        proof { reveal_strlit("6"); }
        "6"
    } else if d == 7 {
        proof { reveal_strlit("7"); }
        "7"
    } else if d == 8 {
        proof { reveal_strlit("8"); }
        "8"
    } else if d == 9 {
        proof { reveal_strlit("9"); }
        "9"
    } else if d == 10 {
        proof { reveal_strlit("a"); }
        "a"
    } else if d == 11 {
        proof { reveal_strlit("b"); }
        "b"
    } else if d == 12 {
        proof { reveal_strlit("c"); }
        "c"
    } else if d == 13 {
        proof { reveal_strlit("d"); }
        "d"
    } else if d == 14 {
        proof { reveal_strlit("e"); }
        "e"
    } else {
        proof { reveal_strlit("f"); }
        "f"
    }
}

/// How many times an exclusive create is retried when the name collides with
/// an externally created file.
pub const CREATE_RETRY_LIMIT: usize = 10;

/// The retry decision for exclusive file creation: try the next name only
/// while the collision budget lasts and the failure was a name collision;
/// any other failure is reported at once.
pub fn should_retry_create(attempt: usize, already_exists: bool) -> (r: bool)
    ensures
        r == (attempt < CREATE_RETRY_LIMIT && already_exists),
{
    attempt < CREATE_RETRY_LIMIT && already_exists
}

/// An allocator of names for temporary files within one directory.
pub struct TmpDir {
    /// The directory the names are meant for. The allocator only records it;
    /// the surrounding file layer joins it with each name.
    pub dir: String,
    /// The next counter value to format into a name.
    pub n: usize,
}

impl TmpDir {
    /// A fresh allocator for the given directory; counting starts at one.
    pub fn new(dir: String) -> (r: TmpDir)
        ensures
            r.dir@ == dir@,
            r.n == 1,
    {
        TmpDir { dir, n: 1 }
    }

    /// Hand out the next file name and advance the counter. Every call
    /// returns a different name (`lemma_tmp_names_distinct`).
    pub fn next_name(&mut self) -> (name: String)
        requires
            old(self).n < usize::MAX,
        ensures
            final(self).n == old(self).n + 1,
            final(self).dir == old(self).dir,
            name@ == spec_tmp_name(old(self).n as nat),
    {
        let value = self.n;
        self.n = self.n + 1;
        // digit values, least significant first
        let mut digs: Vec<u8> = Vec::new();
        let mut v = value;
        let mut w: usize = 8;
        proof {
            assert(Seq::new(digs@.len(), |i: int| hex_digit(digs@[digs@.len() - 1 - i] as int))
                =~= Seq::<char>::empty());
            assert(hex_digits(v as nat, w as nat) + Seq::<char>::empty() =~= hex_digits(
                value as nat,
                8,
            ));
        }
        while v > 0 || w > 0
            invariant
                forall|i: int| 0 <= i < digs@.len() ==> digs@[i] < 16,
                hex_digits(v as nat, w as nat) + Seq::new(
                    digs@.len(),
                    |i: int| hex_digit(digs@[digs@.len() - 1 - i] as int),
                ) == hex_digits(value as nat, 8),
            decreases v, w,
        {
            let ghost v0 = v as nat;
            let ghost w0 = w as nat;
            let d = (v % 16) as u8;
            let ghost old_digs = digs@;
            digs.push(d);
            v = v / 16;
            if w > 0 {
                w = w - 1;
            }
            proof {
                assert(d < 16);
                assert(v as nat == v0 / 16);
                assert(w as nat == if w0 == 0 { 0nat } else { (w0 - 1) as nat });
                assert(d as int == (v0 % 16) as int);
                assert(hex_digits(v0, w0) == hex_digits(v as nat, w as nat).push(
                    hex_digit(d as int),
                ));
                let rev = |s: Seq<u8>| Seq::new(s.len(), |i: int| hex_digit(s[s.len() - 1 - i] as int));
                assert(rev(digs@) =~= seq![hex_digit(d as int)] + rev(old_digs));
                assert((hex_digits(v as nat, w as nat) + seq![hex_digit(d as int)]) + rev(old_digs)
                    =~= hex_digits(v as nat, w as nat) + (seq![hex_digit(d as int)] + rev(
                    old_digs,
                )));
                assert(hex_digits(v as nat, w as nat).push(hex_digit(d as int)) =~= hex_digits(
                    v as nat,
                    w as nat,
                ) + seq![hex_digit(d as int)]);
                assert(hex_digits(v as nat, w as nat) + rev(digs@) =~= hex_digits(value as nat, 8));
            }
        }
        proof {
            assert(hex_digits(v as nat, w as nat) =~= Seq::<char>::empty());
            assert(Seq::<char>::empty() + Seq::new(
                digs@.len(),
                |i: int| hex_digit(digs@[digs@.len() - 1 - i] as int),
            ) =~= Seq::new(digs@.len(), |i: int| hex_digit(digs@[digs@.len() - 1 - i] as int)));
        }
        let mut name = String::from_str("tmp");
        proof {
            reveal_strlit("tmp");
            assert(name@ =~= seq!['t', 'm', 'p']);
        }
        let mut idx = digs.len();
        while idx > 0
            invariant
                idx <= digs@.len(),
                forall|i: int| 0 <= i < digs@.len() ==> digs@[i] < 16,
                name@ == seq!['t', 'm', 'p'] + Seq::new(
                    (digs@.len() - idx) as nat,
                    |i: int| hex_digit(digs@[digs@.len() - 1 - i] as int),
                ),
            decreases idx,
        {
            idx = idx - 1;
            let ds = hex_char_str(digs[idx]);
            name.append(ds);
            proof {
                assert(name@ =~= seq!['t', 'm', 'p'] + Seq::new(
                    (digs@.len() - idx) as nat,
                    |i: int| hex_digit(digs@[digs@.len() - 1 - i] as int),
                ));
            }
        }
        name.append(".dat");
        proof {
            reveal_strlit(".dat");
            assert(".dat"@ =~= seq!['.', 'd', 'a', 't']);
            assert(name@ =~= spec_tmp_name(value as nat));
        }
        name
    }
}

} // verus!
