//! Database commands and the text statement parser.
//!
//! A statement is either `select` or `insert <id> <content...>`; the
//! parser turns one trimmed line of bytes into a [`Statement`].
use vstd::prelude::*;

verus! {

/// Database commands/statements.
#[derive(Debug)]
pub enum Statement {
    /// Retrieve every record.
    Select,
    /// Store a record under a key.
    Insert(u64, Vec<u8>),
}

/// The bytes of the keyword `select`.
pub open spec fn select_bytes() -> Seq<u8> {
    seq![115u8, 101u8, 108u8, 101u8, 99u8, 116u8]
}

/// The bytes of the keyword `insert`.
pub open spec fn insert_bytes() -> Seq<u8> {
    seq![105u8, 110u8, 115u8, 101u8, 114u8, 116u8]
}

/// Whether a byte is an ASCII decimal digit.
pub open spec fn is_digit(c: u8) -> bool {
    48 <= c <= 57
}

/// The number an ASCII digit string denotes.
pub open spec fn digits_val(s: Seq<u8>) -> int
    decreases s.len(),
{
    if s.len() == 0 {
        0
    } else {
        digits_val(s.drop_last()) * 10 + (s.last() - 48)
    }
}

/// Whether `t` is an insert statement whose key takes `d` digits:
/// `insert`, a space, `d` digits, a space, then the content bytes.
pub open spec fn insert_shape_at(t: Seq<u8>, d: int) -> bool {
    &&& d >= 1
    &&& t.len() >= 8 + d
    &&& t.subrange(0, 6) == insert_bytes()
    &&& t[6] == 32
    &&& forall|i: int| 7 <= i < 7 + d ==> is_digit(t[i])
    &&& t[7 + d] == 32
}

/// Whether `t` is an insert statement of any key width.
pub open spec fn insert_shape(t: Seq<u8>) -> bool {
    exists|d: int| insert_shape_at(t, d)
}

/// The digit string of an insert statement never denotes two values:
/// its width is fixed by the first non-digit byte.
proof fn lemma_insert_shape_unique(t: Seq<u8>, d1: int, d2: int)
    requires
        insert_shape_at(t, d1),
        insert_shape_at(t, d2),
    ensures
        d1 == d2,
{
    if d1 < d2 {
        assert(is_digit(t[7 + d1]));
    } else if d2 < d1 {
        assert(is_digit(t[7 + d2]));
    }
}

/// A digit string denotes a nonnegative number.
proof fn lemma_digits_val_nonneg(s: Seq<u8>)
    requires
        forall|i: int| 0 <= i < s.len() ==> is_digit(#[trigger] s[i]),
    ensures
        digits_val(s) >= 0,
    decreases s.len(),
{
    if s.len() > 0 {
        let p = s.drop_last();
        assert forall|i: int| 0 <= i < p.len() implies is_digit(#[trigger] p[i]) by {
            assert(p[i] == s[i]);
        }
        lemma_digits_val_nonneg(p);
    }
}

/// Longer digit prefixes denote numbers at least as large.
proof fn lemma_digits_val_grows(t: Seq<u8>, a: int, k1: int, k2: int)
    requires
        0 <= a <= a + k1 <= a + k2 <= t.len(),
        forall|i: int| a <= i < a + k2 ==> is_digit(#[trigger] t[i]),
    ensures
        digits_val(t.subrange(a, a + k1)) <= digits_val(t.subrange(a, a + k2)),
    decreases k2 - k1,
{
    if k1 < k2 {
        lemma_digits_val_grows(t, a, k1, k2 - 1);
        let s1 = t.subrange(a, a + k2 - 1);
        let s2 = t.subrange(a, a + k2);
        assert(s2.drop_last() =~= s1);
        assert forall|i: int| 0 <= i < s1.len() implies is_digit(#[trigger] s1[i]) by {
            assert(s1[i] == t[a + i]);
        }
        lemma_digits_val_nonneg(s1);
        assert(is_digit(s2.last()));
        assert(digits_val(s2) == digits_val(s1) * 10 + (s2.last() - 48));
        assert(digits_val(s1) * 10 >= digits_val(s1));
    }
}

impl Statement {
    /// Parses one trimmed line.
    ///
    /// `select` selects; `insert <digits> <content>` inserts the
    /// content bytes under the numeric key, provided the key fits in
    /// 64 bits. Any other line starting with `insert` is a syntax
    /// error; anything else is an unknown command.
    pub fn parse(input: &[u8]) -> (r: Result<Statement, String>)
        ensures
            input@ == select_bytes() ==> (r matches Ok(st) && st is Select),
            (insert_shape(input@) && (forall|d: int|
                insert_shape_at(input@, d) ==> digits_val(input@.subrange(7, 7 + d))
                    <= u64::MAX)) ==> (r matches Ok(st) && st matches Statement::Insert(
                id,
                content,
            ) && exists|d: int|
                #![trigger insert_shape_at(input@, d)]
                insert_shape_at(input@, d) && id == digits_val(input@.subrange(7, 7 + d))
                    && content@ == input@.subrange(8 + d, input@.len() as int)),
            r is Err ==> input@ != select_bytes() && !(insert_shape(input@) && (forall|d: int|
                insert_shape_at(input@, d) ==> digits_val(input@.subrange(7, 7 + d))
                    <= u64::MAX)),
    {
        let n = input.len();
        if n == 6 && input[0] == 115 && input[1] == 101 && input[2] == 108 && input[3] == 101
            && input[4] == 99 && input[5] == 116 {
            proof {
                assert(input@ =~= select_bytes());
            }
            return Ok(Statement::Select);
        }
        proof {
            if input@ == select_bytes() {
                assert(input@[0] == 115 && input@[1] == 101 && input@[2] == 108 && input@[3]
                    == 101 && input@[4] == 99 && input@[5] == 116);
            }
        }
        let starts_insert = n >= 6 && input[0] == 105 && input[1] == 110 && input[2] == 115
            && input[3] == 101 && input[4] == 114 && input[5] == 116;
        if !starts_insert {
            proof {
                if insert_shape(input@) {
                    let d = choose|d: int| insert_shape_at(input@, d);
                    assert(input@.subrange(0, 6)[0] == input@[0]);
                    assert(input@.subrange(0, 6)[1] == input@[1]);
                    assert(input@.subrange(0, 6)[2] == input@[2]);
                    assert(input@.subrange(0, 6)[3] == input@[3]);
                    assert(input@.subrange(0, 6)[4] == input@[4]);
                    assert(input@.subrange(0, 6)[5] == input@[5]);
                }
            }
            return Err("unknown command".to_string());
        }
        if n < 8 || input[6] != 32 {
            proof {
                if insert_shape(input@) {
                    let d = choose|d: int| insert_shape_at(input@, d);
                }
            }
            return Err("invalid syntax".to_string());
        }
        // Scan the digits of the key.
        let mut acc: u64 = 0;
        let mut i: usize = 7;
        while i < n && input[i] >= 48 && input[i] <= 57
            invariant
                n == input@.len(),
                n >= 8,
                7 <= i <= n,
                forall|j: int| 7 <= j < i ==> is_digit(#[trigger] input@[j]),
                acc as int == digits_val(input@.subrange(7, i as int)),
            decreases n - i,
        {
            let dg = (input[i] - 48) as u64;
            let wide: u128 = (acc as u128) * 10 + (dg as u128);
            if wide > u64::MAX as u128 {
                // The key would not fit in 64 bits: with further
                // digits it only grows.
                proof {
                    assert(digits_val(input@.subrange(7, i + 1)) == acc as int * 10 + dg) by {
                        assert(input@.subrange(7, i + 1).drop_last() =~= input@.subrange(
                            7,
                            i as int,
                        ));
                    }
                    if insert_shape(input@) {
                        let d = choose|d: int| insert_shape_at(input@, d);
                        assert(7 + d > i) by {
                            if 7 + d <= i {
                                assert(is_digit(input@[7 + d]));
                            }
                        }
                        lemma_digits_val_grows(input@, 7, i + 1 - 7, d);
                        assert(digits_val(input@.subrange(7, 7 + d)) > u64::MAX);
                    }
                }
                return Err("invalid syntax".to_string());
            }
            proof {
                assert(input@.subrange(7, i + 1).drop_last() =~= input@.subrange(7, i as int));
            }
            acc = (wide as u64);
            i = i + 1;
        }
        if i == 7 || i == n || input[i] != 32 {
            // No digits, or no content separator after them.
            proof {
                if insert_shape(input@) {
                    let d = choose|d: int| insert_shape_at(input@, d);
                    if i < n {
                        assert(7 + d != i) by {
                            if 7 + d == i {
                                assert(input@[7 + d] == 32);
                            }
                        }
                        if 7 + d < i {
                            assert(is_digit(input@[7 + d]));
                        } else {
                            assert(is_digit(input@[i as int]));
                        }
                    } else {
                        if 7 + d < i {
                            assert(is_digit(input@[7 + d]));
                        }
                    }
                }
            }
            return Err("invalid syntax".to_string());
        }
        let mut content: Vec<u8> = Vec::new();
        let mut j: usize = i + 1;
        while j < n
            invariant
                n == input@.len(),
                i + 1 <= j <= n,
                content@ == input@.subrange(i + 1, j as int),
            decreases n - j,
        {
            content.push(input[j]);
            proof {
                assert(content@ =~= input@.subrange(i + 1, j + 1));
            }
            j = j + 1;
        }
        proof {
            let d = i - 7;
            assert(input@.subrange(0, 6) =~= insert_bytes());
            assert(insert_shape_at(input@, d as int));
            assert(content@ == input@.subrange(8 + d, input@.len() as int));
            assert forall|d2: int| insert_shape_at(input@, d2) implies d2 == d as int by {
                lemma_insert_shape_unique(input@, d as int, d2);
            }
        }
        Ok(Statement::Insert(acc, content))
    }
}

} // verus!
