//! Records of tagged fields. A record is stored as a definite-length array
//! whose element at index `i` is the field with tag `i`. Elements past the
//! fields that a schema declares are stepped over, and fields past the end of
//! the stored array are reported absent, so that a schema may grow by adding
//! fields at the end.
use vstd::prelude::*;
use crate::wire::{
    arg_at, array_at, bool_at, bool_item, head, lemma_head_reads_back, null_at, null_item,
    put_array, put_bool, put_null, put_u32, skipped_to, take_any, take_array, take_bool,
    take_null, take_u32, uint_at,
};

verus! {

/// What kind of value a field holds.
#[derive(Clone, Copy, Debug, PartialEq, Eq, Structural)]
pub enum FieldKind {
    /// A boolean.
    Flag,
    /// An unsigned integer no larger than `max`.
    Uint { max: u32 },
    /// An unsigned integer or null.
    OptUint,
}

/// A field's value as stored.
#[derive(Clone, Copy, Debug, PartialEq, Eq, Structural)]
pub enum FieldValue {
    Flag(bool),
    Uint(u32),
    Null,
}

/// The bytes of one field.
pub open spec fn value_bytes(v: FieldValue) -> Seq<u8> {
    match v {
        FieldValue::Flag(x) => bool_item(x),
        FieldValue::Uint(n) => head(0, n as nat),
        FieldValue::Null => null_item(),
    }
}

/// The bytes of a sequence of fields, one after the other.
pub open spec fn values_bytes(vs: Seq<FieldValue>) -> Seq<u8>
    decreases vs.len(),
{
    if vs.len() == 0 {
        Seq::empty()
    } else {
        values_bytes(vs.drop_last()) + value_bytes(vs.last())
    }
}

/// The stored form of a record whose fields, by tag, are `vs`.
pub open spec fn record_bytes(vs: Seq<FieldValue>) -> Seq<u8> {
    head(4, vs.len()) + values_bytes(vs)
}

/// A field of kind `k` read at `p`, and where it ends.
pub open spec fn field_at(b: Seq<u8>, p: int, k: FieldKind) -> Option<(FieldValue, int)> {
    match k {
        FieldKind::Flag => match bool_at(b, p) {
            Some(x) => Some((FieldValue::Flag(x), p + 1)),
            None => None,
        },
        FieldKind::Uint { max } => match uint_at(b, p, max as nat) {
            Some((n, q)) => Some((FieldValue::Uint(n as u32), q)),
            None => None,
        },
        FieldKind::OptUint => if null_at(b, p) {
            Some((FieldValue::Null, p + 1))
        } else {
            match uint_at(b, p, u32::MAX as nat) {
                Some((n, q)) => Some((FieldValue::Uint(n as u32), q)),
                None => None,
            }
        },
    }
}

/// Reads the array elements `i .. len` that start at `p` into `acc`.
pub open spec fn read_elements(
    b: Seq<u8>,
    kinds: Seq<FieldKind>,
    p: int,
    i: nat,
    len: nat,
    acc: Seq<Option<FieldValue>>,
) -> Option<Seq<Option<FieldValue>>>
    decreases len - i,
{
    if i >= len {
        Some(acc)
    } else if i < kinds.len() {
        match field_at(b, p, kinds[i as int]) {
            Some((v, q)) => read_elements(b, kinds, q, i + 1, len, acc.update(i as int, Some(v))),
            None => None,
        }
    } else {
        match skipped_to(b, p) {
            Some(q) => read_elements(b, kinds, q, i + 1, len, acc),
            None => None,
        }
    }
}

/// No field read yet.
pub open spec fn no_fields(n: nat) -> Seq<Option<FieldValue>> {
    Seq::new(n, |i: int| None)
}

/// The record that `b` holds under the field kinds `kinds`: for each declared
/// tag, its value, or `None` where the stored array stops before it.
pub open spec fn read_record(b: Seq<u8>, kinds: Seq<FieldKind>) -> Option<Seq<Option<FieldValue>>> {
    match array_at(b, 0) {
        Some((len, q)) => read_elements(b, kinds, q, 0, len, no_fields(kinds.len())),
        None => None,
    }
}

/// Whether `v` is a value that a field of kind `k` may hold.
pub open spec fn fits(v: FieldValue, k: FieldKind) -> bool {
    match k {
        FieldKind::Flag => v is Flag,
        FieldKind::Uint { max } => v matches FieldValue::Uint(n) && n <= max,
        FieldKind::OptUint => v is Uint || v is Null,
    }
}

/// The fields read back from the record `vs` under `n` declared tags.
pub open spec fn fields_of(vs: Seq<FieldValue>, n: nat) -> Seq<Option<FieldValue>> {
    Seq::new(n, |j: int| if j < vs.len() { Some(vs[j]) } else { None })
}

/// The first `i` fields of `vs` read, the rest not yet.
pub open spec fn fields_read(vs: Seq<FieldValue>, n: nat, i: int) -> Seq<Option<FieldValue>> {
    Seq::new(n, |j: int| if j < i && j < vs.len() { Some(vs[j]) } else { None })
}

proof fn lemma_values_prefix(vs: Seq<FieldValue>, i: int, k: int)
    requires
        0 <= i < k <= vs.len(),
    ensures
        values_bytes(vs.take(i + 1)) == values_bytes(vs.take(i)) + value_bytes(vs[i]),
        values_bytes(vs.take(i + 1)).len() <= values_bytes(vs.take(k)).len(),
        values_bytes(vs.take(k)).subrange(0, values_bytes(vs.take(i + 1)).len() as int)
            == values_bytes(vs.take(i + 1)),
    decreases k - i,
{
    assert(vs.take(i + 1).drop_last() == vs.take(i));
    assert(vs.take(i + 1).last() == vs[i]);
    if k > i + 1 {
        lemma_values_prefix(vs, i, k - 1);
        assert(vs.take(k).drop_last() == vs.take(k - 1));
        let a = values_bytes(vs.take(k - 1));
        let c = values_bytes(vs.take(i + 1));
        assert(values_bytes(vs.take(k)) == a + value_bytes(vs.take(k).last()));
        assert((a + value_bytes(vs.take(k).last())).subrange(0, c.len() as int) == a.subrange(
            0,
            c.len() as int,
        ));
    } else {
        assert(values_bytes(vs.take(k)).subrange(0, values_bytes(vs.take(i + 1)).len() as int)
            == values_bytes(vs.take(i + 1)));
    }
}

/// A field written at `p` reads back as itself.
proof fn lemma_field_reads_back(b: Seq<u8>, p: int, v: FieldValue, k: FieldKind)
    requires
        fits(v, k),
        0 <= p,
        p + value_bytes(v).len() <= b.len(),
        b.subrange(p, p + value_bytes(v).len()) == value_bytes(v),
    ensures
        field_at(b, p, k) == Some((v, p + value_bytes(v).len())),
{
    assert(b[p] == value_bytes(v)[0]);
    match v {
        FieldValue::Uint(n) => {
            lemma_head_reads_back(b, p, 0, n as nat);
        },
        _ => {},
    }
}

proof fn lemma_elements_read_back(vs: Seq<FieldValue>, kinds: Seq<FieldKind>, i: int)
    requires
        0 <= i <= vs.len(),
        vs.len() <= kinds.len(),
        vs.len() < 0x1_0000_0000,
        forall|j: int| 0 <= j < vs.len() ==> fits(#[trigger] vs[j], kinds[j]),
    ensures
        read_elements(
            record_bytes(vs),
            kinds,
            (head(4, vs.len()).len() + values_bytes(vs.take(i)).len()) as int,
            i as nat,
            vs.len(),
            fields_read(vs, kinds.len(), i),
        ) == Some(fields_of(vs, kinds.len())),
    decreases vs.len() - i,
{
    let b = record_bytes(vs);
    let h = head(4, vs.len());
    if i == vs.len() {
        assert(fields_read(vs, kinds.len(), i) == fields_of(vs, kinds.len()));
    } else {
        let p = (h.len() + values_bytes(vs.take(i)).len()) as int;
        lemma_values_prefix(vs, i, vs.len() as int);
        assert(vs.take(vs.len() as int) == vs);
        let c = values_bytes(vs.take(i + 1));
        let w = value_bytes(vs[i]);
        assert(b.subrange(h.len() as int, (h.len() + c.len()) as int) == c);
        assert(b.subrange(p, p + w.len() as int) == w) by {
            assert(c.subrange(values_bytes(vs.take(i)).len() as int, c.len() as int) == w);
        }
        lemma_field_reads_back(b, p, vs[i], kinds[i]);
        assert(fields_read(vs, kinds.len(), i).update(i, Some(vs[i])) == fields_read(
            vs,
            kinds.len(),
            i + 1,
        ));
        lemma_elements_read_back(vs, kinds, i + 1);
    }
}

/// A record written under tags that a schema declares reads back under that
/// schema as the same fields, the tags past its end absent.
pub proof fn lemma_record_round_trip(vs: Seq<FieldValue>, kinds: Seq<FieldKind>)
    requires
        vs.len() <= kinds.len(),
        vs.len() < 0x1_0000_0000,
        forall|j: int| 0 <= j < vs.len() ==> fits(#[trigger] vs[j], kinds[j]),
    ensures
        read_record(record_bytes(vs), kinds) == Some(fields_of(vs, kinds.len())),
{
    let b = record_bytes(vs);
    let h = head(4, vs.len());
    assert(b.subrange(0, h.len() as int) == h);
    lemma_head_reads_back(b, 0, 4, vs.len());
    assert(vs.take(0) == Seq::<FieldValue>::empty());
    assert(fields_read(vs, kinds.len(), 0) == no_fields(kinds.len()));
    lemma_elements_read_back(vs, kinds, 0);
}

/// Writes a record whose fields, by tag, are `vs`.
pub fn write_record(vs: &Vec<FieldValue>) -> (r: Vec<u8>)
    requires
        vs.len() < 0x1_0000_0000,
    ensures
        r@ == record_bytes(vs@),
{
    let mut buf: Vec<u8> = Vec::new();
    put_array(&mut buf, vs.len() as u32);
    let mut i: usize = 0;
    while i < vs.len()
        invariant
            i <= vs.len(),
            buf@ == head(4, vs@.len()) + values_bytes(vs@.take(i as int)),
        decreases vs.len() - i,
    {
        let ghost before = buf@;
        match vs[i] {
            FieldValue::Flag(x) => put_bool(&mut buf, x),
            FieldValue::Uint(n) => put_u32(&mut buf, n),
            FieldValue::Null => put_null(&mut buf),
        }
        assert(vs@.take(i + 1).drop_last() == vs@.take(i as int));
        assert(buf@ == head(4, vs@.len()) + values_bytes(vs@.take(i + 1)));
        i = i + 1;
    }
    assert(vs@.take(vs.len() as int) == vs@);
    buf
}

/// Reads a field of kind `k` at `p`.
fn read_field(b: &[u8], p: usize, k: FieldKind) -> (r: Option<(FieldValue, usize)>)
    ensures
        match field_at(b@, p as int, k) {
            Some((v, q)) => r matches Some((w, e)) && w == v && e as int == q,
            None => r is None,
        },
{
    let _ = b.len();
    match k {
        FieldKind::Flag => match take_bool(b, p) {
            Some(x) => Some((FieldValue::Flag(x), p + 1)),
            None => None,
        },
        FieldKind::Uint { max } => match take_u32(b, p) {
            Some((n, q)) => if n <= max {
                Some((FieldValue::Uint(n), q))
            } else {
                None
            },
            None => None,
        },
        FieldKind::OptUint => if take_null(b, p) {
            Some((FieldValue::Null, p + 1))
        } else {
            match take_u32(b, p) {
                Some((n, q)) => Some((FieldValue::Uint(n), q)),
                None => None,
            }
        },
    }
}

/// Reads the record that `b` holds under the field kinds `kinds`.
pub fn read(b: &[u8], kinds: &Vec<FieldKind>) -> (r: Option<Vec<Option<FieldValue>>>)
    ensures
        match read_record(b@, kinds@) {
            Some(fields) => r matches Some(v) && v@ == fields,
            None => r is None,
        },
{
    let (len, start) = match take_array(b, 0) {
        Some(x) => x,
        None => {
            return None;
        },
    };
    let mut acc: Vec<Option<FieldValue>> = Vec::new();
    let mut j: usize = 0;
    while j < kinds.len()
        invariant
            j <= kinds.len(),
            acc@ == no_fields(j as nat),
        decreases kinds.len() - j,
    {
        acc.push(None);
        j = j + 1;
        assert(acc@ == no_fields(j as nat));
    }
    let mut p: usize = start;
    let mut i: u64 = 0;
    while i < len
        invariant
            i <= len,
            acc@.len() == kinds@.len(),
            read_record(b@, kinds@) == read_elements(b@, kinds@, p as int, i as nat, len as nat, acc@),
        decreases len - i,
    {
        if i < kinds.len() as u64 {
            match read_field(b, p, kinds[i as usize]) {
                Some((v, q)) => {
                    acc.set(i as usize, Some(v));
                    p = q;
                },
                None => {
                    return None;
                },
            }
        } else {
            match take_any(b, p) {
                Some(q) => {
                    p = q;
                },
                None => {
                    return None;
                },
            }
        }
        i = i + 1;
    }
    Some(acc)
}

} // verus!
