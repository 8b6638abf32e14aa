use vstd::prelude::*;
use vstd::string::*;
use vstd::utf8::{decode_utf8, encode_utf8, encode_utf8_decode_utf8};

verus! {

/// `a` and `b` agree on their first `i` bytes, and there `a` ends while `b`
/// goes on, or `a` has the lower byte.
pub open spec fn parts_at(a: Seq<u8>, b: Seq<u8>, i: int) -> bool {
    &&& 0 <= i <= a.len()
    &&& i < b.len()
    &&& a.take(i) == b.take(i)
    &&& (i == a.len() || a[i] < b[i])
}

/// `a` stands before `b` in the order of their bytes.
pub open spec fn bytes_less(a: Seq<u8>, b: Seq<u8>) -> bool {
    exists|i: int| parts_at(a, b, i)
}

/// The order of the keys: that of their UTF-8 bytes, which is the order in
/// which Rust compares strings.
pub open spec fn key_less(a: Seq<char>, b: Seq<char>) -> bool {
    bytes_less(encode_utf8(a), encode_utf8(b))
}

/// Each key of the list stands before those behind it.
pub open spec fn sorted(keys: Seq<Seq<char>>) -> bool {
    forall|i: int, j: int| 0 <= i < j < keys.len() ==> key_less(keys[i], keys[j])
}

/// Where two rows of bytes part, they agree before.
proof fn lemma_agree_before(a: Seq<u8>, b: Seq<u8>, i: int, t: int)
    requires
        0 <= t < i <= a.len(),
        i <= b.len(),
        a.take(i) == b.take(i),
    ensures
        a[t] == b[t],
{
    assert(a.take(i)[t] == a[t]);
    assert(b.take(i)[t] == b[t]);
}

/// No row of bytes stands before itself.
pub proof fn lemma_bytes_less_irreflexive(a: Seq<u8>)
    ensures
        !bytes_less(a, a),
{
}

/// The order of bytes is transitive.
pub proof fn lemma_bytes_less_transitive(a: Seq<u8>, b: Seq<u8>, c: Seq<u8>)
    requires
        bytes_less(a, b),
        bytes_less(b, c),
    ensures
        bytes_less(a, c),
{
    let i = choose|i: int| parts_at(a, b, i);
    let j = choose|j: int| parts_at(b, c, j);
    let k = if i < j {
        i
    } else {
        j
    };
    assert forall|t: int| 0 <= t < k implies a[t] == c[t] by {
        lemma_agree_before(a, b, i, t);
        lemma_agree_before(b, c, j, t);
    }
    assert(a.take(k) =~= c.take(k));
    if i < j {
        if i < a.len() {
            lemma_agree_before(b, c, j, i);
        }
    } else if i > j {
        lemma_agree_before(a, b, i, j);
    }
    assert(parts_at(a, c, k));
}

/// Two rows of bytes that agree on their first `n` bytes and are not the
/// same are in order, one way or the other.
proof fn lemma_bytes_part(a: Seq<u8>, b: Seq<u8>, n: int)
    requires
        0 <= n <= a.len(),
        n <= b.len(),
        a.take(n) == b.take(n),
        a != b,
    ensures
        bytes_less(a, b) || bytes_less(b, a),
    decreases a.len() - n,
{
    if n == a.len() {
        if n == b.len() {
            assert(a.take(n) =~= a);
            assert(b.take(n) =~= b);
        } else {
            assert(parts_at(a, b, n));
        }
    } else if n == b.len() {
        assert(parts_at(b, a, n));
    } else if a[n] < b[n] {
        assert(parts_at(a, b, n));
    } else if b[n] < a[n] {
        assert(parts_at(b, a, n));
    } else {
        assert forall|t: int| 0 <= t < n + 1 implies a[t] == b[t] by {
            if t < n {
                lemma_agree_before(a, b, n, t);
            }
        }
        assert(a.take(n + 1) =~= b.take(n + 1));
        lemma_bytes_part(a, b, n + 1);
    }
}

/// No key stands before itself.
pub proof fn lemma_key_less_irreflexive(a: Seq<char>)
    ensures
        !key_less(a, a),
{
    lemma_bytes_less_irreflexive(encode_utf8(a));
}

/// The order of the keys is transitive.
pub proof fn lemma_key_less_transitive(a: Seq<char>, b: Seq<char>, c: Seq<char>)
    requires
        key_less(a, b),
        key_less(b, c),
    ensures
        key_less(a, c),
{
    lemma_bytes_less_transitive(encode_utf8(a), encode_utf8(b), encode_utf8(c));
}

/// Two keys that are not the same are in order, one way or the other.
pub proof fn lemma_key_less_total(a: Seq<char>, b: Seq<char>)
    requires
        a != b,
    ensures
        key_less(a, b) || key_less(b, a),
{
    encode_utf8_decode_utf8(a);
    encode_utf8_decode_utf8(b);
    assert(encode_utf8(a) != encode_utf8(b)) by {
        if encode_utf8(a) == encode_utf8(b) {
            assert(decode_utf8(encode_utf8(a)) == decode_utf8(encode_utf8(b)));
        }
    }
    assert(encode_utf8(a).take(0) =~= encode_utf8(b).take(0));
    lemma_bytes_part(encode_utf8(a), encode_utf8(b), 0);
}

/// A sorted list holds no key twice.
pub proof fn lemma_sorted_no_duplicates(keys: Seq<Seq<char>>)
    requires
        sorted(keys),
    ensures
        keys.no_duplicates(),
{
    assert forall|i: int, j: int| 0 <= i < keys.len() && 0 <= j < keys.len() && i != j implies keys[i]
        != keys[j] by {
        lemma_key_less_irreflexive(keys[i]);
        if i < j {
            assert(key_less(keys[i], keys[j]));
        } else {
            assert(key_less(keys[j], keys[i]));
        }
    }
}

/// Whether `a` stands before `b` in the order of the keys.
pub fn key_lt(a: &String, b: &String) -> (less: bool)
    ensures
        less == key_less(a@, b@),
{
    let x = a.as_str().as_bytes();
    let y = b.as_str().as_bytes();
    let mut i: usize = 0;
    while i < x.len() && i < y.len()
        invariant
            i <= x.len(),
            i <= y.len(),
            x@.take(i as int) == y@.take(i as int),
            x@ == encode_utf8(a@),
            y@ == encode_utf8(b@),
        decreases x.len() - i,
    {
        if x[i] != y[i] {
            proof {
                if x[i as int] < y[i as int] {
                    assert(parts_at(x@, y@, i as int));
                } else {
                    assert forall|w: int| !parts_at(x@, y@, w) by {
                        if parts_at(x@, y@, w) {
                            if w < i {
                                lemma_agree_before(x@, y@, i as int, w);
                            } else if w > i {
                                lemma_agree_before(x@, y@, w, i as int);
                            }
                        }
                    }
                }
            }
            return x[i] < y[i];
        }
        proof {
            assert forall|t: int| 0 <= t < i + 1 implies x@[t] == y@[t] by {
                if t < i {
                    lemma_agree_before(x@, y@, i as int, t);
                }
            }
            assert(x@.take(i + 1) =~= y@.take(i + 1));
        }
        i += 1;
    }
    proof {
        if x.len() < y.len() {
            assert(parts_at(x@, y@, i as int));
        } else {
            assert forall|w: int| !parts_at(x@, y@, w) by {
                if parts_at(x@, y@, w) {
                    lemma_agree_before(x@, y@, i as int, w);
                }
            }
        }
    }
    x.len() < y.len()
}

} // verus!
