use vstd::prelude::*;
use vstd::std_specs::iter::IteratorSpec;
use vstd::string::StrSliceExecFns;
use vstd::utf8::encode_utf8;

verus! {

/// The part of `address` before its first dot; all of it where it has none.
pub open spec fn first_label_of(address: Seq<char>) -> Seq<char> {
    match address.index_of_first('.') {
        Some(dot) => address.take(dot),
        None => address,
    }
}

/// Whether two texts are the same, character by character.
pub fn str_eq(a: &str, b: &str) -> (same: bool)
    ensures
        same == (a@ == b@),
{
    let x: &[u8] = a.as_bytes();
    let y: &[u8] = b.as_bytes();
    proof {
        vstd::utf8::encode_utf8_decode_utf8(a@);
        vstd::utf8::encode_utf8_decode_utf8(b@);
    }
    if x.len() != y.len() {
        return false;
    }
    let mut i: usize = 0;
    while i < x.len()
        invariant
            i <= x@.len(),
            x@.len() == y@.len(),
            forall|j: int| 0 <= j < i ==> x@[j] == y@[j],
            x@ == encode_utf8(a@),
            y@ == encode_utf8(b@),
        decreases x@.len() - i,
    {
        if x[i] != y[i] {
            return false;
        }
        i = i + 1;
    }
    proof {
        assert(x@ =~= y@);
    }
    true
}

/// The route key of a handshake address: its first dot-separated label.
pub fn first_label(address: &str) -> (label: String)
    ensures
        label@ == first_label_of(address@),
{
    broadcast use vstd::string::group_string_axioms;

    let total: usize = address.unicode_len();
    let mut rest = address.chars();
    let mut count: usize = 0;
    loop
        invariant_except_break
            rest.remaining() == address@.skip(count as int),
        invariant
            total == address@.len(),
            count <= total,
            forall|j: int| 0 <= j < count ==> address@[j] != '.',
        ensures
            count <= total,
            forall|j: int| 0 <= j < count ==> address@[j] != '.',
            count == total || address@[count as int] == '.',
        decreases total - count,
    {
        let ghost before = rest.remaining();
        match rest.next() {
            None => {
                break ;
            },
            Some(c) => {
                proof {
                    assert(before[0] == address@[count as int]);
                    assert(address@.skip(count as int).drop_first() =~= address@.skip(count + 1));
                }
                if c == '.' {
                    break ;
                }
                count = count + 1;
            },
        }
    }
    proof {
        address@.index_of_first_ensures('.');
        assert(address@.take(total as int) =~= address@);
    }
    address.substring_char(0, count).to_owned()
}

} // verus!
