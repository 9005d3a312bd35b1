//! A generic semi-structured document tree, the low-priority fallback
//! source of configuration values.

use vstd::prelude::*;
use crate::codec::{
    contains_name, DecodeFault, FaultView, FieldValue, Kind, KindView, ValView, comma_free,
    kind_view, split_text, val_view,
};

verus! {

/// One key/value pair of a document table.
#[derive(Debug, PartialEq, Eq)]
pub struct DocEntry {
    pub key: String,
    pub value: DocValue,
}

/// A node of a loaded document: string, integer, boolean, array or
/// table. Nodes of any other shape are kept as `Other` and match no
/// field kind.
#[derive(Debug, PartialEq, Eq)]
pub enum DocValue {
    Str(String),
    Int(i64),
    Bool(bool),
    Array(Vec<DocValue>),
    Table(Vec<DocEntry>),
    Other,
}

/// The mathematical form of a document node.
pub enum DocView {
    Str(Seq<char>),
    Int(int),
    Bool(bool),
    Array(Seq<DocView>),
    Table(Seq<(Seq<char>, DocView)>),
    Other,
}

pub open spec fn doc_view(d: DocValue) -> DocView
    decreases d,
    via doc_view_decreases
{
    match d {
        DocValue::Str(t) => DocView::Str(t@),
        DocValue::Int(i) => DocView::Int(i as int),
        DocValue::Bool(b) => DocView::Bool(b),
        DocValue::Array(items) => DocView::Array(
            Seq::new(
                items@.len(),
                |i: int|
                    if 0 <= i < items@.len() {
                        doc_view(items@[i])
                    } else {
                        DocView::Other
                    },
            ),
        ),
        DocValue::Table(entries) => DocView::Table(
            Seq::new(
                entries@.len(),
                |i: int|
                    if 0 <= i < entries@.len() {
                        (entries@[i].key@, doc_view(entries@[i].value))
                    } else {
                        (Seq::empty(), DocView::Other)
                    },
            ),
        ),
        DocValue::Other => DocView::Other,
    }
}

#[via_fn]
proof fn doc_view_decreases(d: DocValue) {
    broadcast use vstd::std_specs::vec::group_vec_axioms;
    broadcast use vstd::seq::group_seq_axioms;

    match d {
        DocValue::Array(items) => {
            assert forall|i: int| 0 <= i < items@.len() implies #[trigger] (decreases_to!(
                d => items@[i])) by {
                assert(decreases_to!(d => items));
                assert(decreases_to!(items => items@));
                assert(decreases_to!(items@ => items@[i]));
            }
        },
        DocValue::Table(entries) => {
            assert forall|i: int| 0 <= i < entries@.len() implies #[trigger] (decreases_to!(
                d => entries@[i].value)) by {
                assert(decreases_to!(d => entries));
                assert(decreases_to!(entries => entries@));
                assert(decreases_to!(entries@ => entries@[i]));
                assert(decreases_to!(entries@[i] => entries@[i].value));
            }
        },
        _ => {},
    }
}

impl View for DocValue {
    type V = DocView;

    open spec fn view(&self) -> DocView {
        doc_view(*self)
    }
}

impl Clone for DocEntry {
    /// Clone one table entry, keeping key and value.
    fn clone(&self) -> (r: Self)
        ensures
            r.key@ == self.key@,
            r.value@ == self.value@,
    {
        DocEntry { key: self.key.clone(), value: self.value.clone() }
    }
}

impl Clone for DocValue {
    /// Clone a document node; the copy has the same view.
    fn clone(&self) -> (r: Self)
        ensures
            r@ == self@,
        decreases *self,
    {
        match self {
            DocValue::Str(t) => DocValue::Str(t.clone()),
            DocValue::Int(i) => DocValue::Int(*i),
            DocValue::Bool(b) => DocValue::Bool(*b),
            DocValue::Array(items) => {
                let mut out: Vec<DocValue> = Vec::new();
                let mut i: usize = 0;
                while i < items.len()
                    invariant
                        i <= items@.len(),
                        out@.len() == i,
                        self@ == doc_view(DocValue::Array(*items)),
                        decreases_to!(*self => *items),
                        forall|j: int| 0 <= j < i ==> #[trigger] out@[j]@ == items@[j]@,
                    decreases items@.len() - i,
                {
                    proof {
                        broadcast use vstd::std_specs::vec::group_vec_axioms;

                        assert(decreases_to!(*items => items@));
                        assert(decreases_to!(items@ => items@[i as int]));
                    }
                    let c = items[i].clone();
                    out.push(c);
                    i += 1;
                }
                proof {
                    let a = doc_view(DocValue::Array(out))->Array_0;
                    let b = doc_view(DocValue::Array(*items))->Array_0;
                    assert forall|j: int| 0 <= j < i implies a[j] == b[j] by {
                        assert(out@[j]@ == items@[j]@);
                    }
                    assert(a =~= b);
                }
                DocValue::Array(out)
            },
            DocValue::Table(entries) => {
                let mut out: Vec<DocEntry> = Vec::new();
                let mut i: usize = 0;
                while i < entries.len()
                    invariant
                        i <= entries@.len(),
                        out@.len() == i,
                        self@ == doc_view(DocValue::Table(*entries)),
                        decreases_to!(*self => *entries),
                        forall|j: int|
                            0 <= j < i ==> #[trigger] out@[j].key@ == entries@[j].key@
                                && out@[j].value@ == entries@[j].value@,
                    decreases entries@.len() - i,
                {
                    proof {
                        broadcast use vstd::std_specs::vec::group_vec_axioms;

                        assert(decreases_to!(*entries => entries@));
                        assert(decreases_to!(entries@ => entries@[i as int]));
                        assert(decreases_to!(entries@[i as int] => entries@[i as int].value));
                    }
                    let c = DocEntry {
                        key: entries[i].key.clone(),
                        value: entries[i].value.clone(),
                    };
                    out.push(c);
                    i += 1;
                }
                proof {
                    let a = doc_view(DocValue::Table(out))->Table_0;
                    let b = doc_view(DocValue::Table(*entries))->Table_0;
                    assert forall|j: int| 0 <= j < i implies a[j] == b[j] by {
                        assert(out@[j].key@ == entries@[j].key@);
                        assert(out@[j].value@ == entries@[j].value@);
                    }
                    assert(a =~= b);
                }
                DocValue::Table(out)
            },
            DocValue::Other => DocValue::Other,
        }
    }
}

/// Look a key up in a table's entries, first match wins.
pub open spec fn table_get(entries: Seq<(Seq<char>, DocView)>, key: Seq<char>) -> Option<DocView>
    decreases entries.len(),
{
    if entries.len() == 0 {
        None
    } else if entries[0].0 == key {
        Some(entries[0].1)
    } else {
        table_get(entries.drop_first(), key)
    }
}

/// What looking a key up in a document node yields: an entry of a table
/// node, nothing on any other node.
pub open spec fn doc_get_spec(d: DocView, key: Seq<char>) -> Option<DocView> {
    match d {
        DocView::Table(entries) => table_get(entries, key),
        _ => None,
    }
}

impl DocValue {
    /// Look up a key: the first entry of a table node under that key;
    /// `None` on any other node.
    pub fn get(&self, key: &str) -> (r: Option<&DocValue>)
        ensures
            match r {
                Some(v) => doc_get_spec(self@, key@) == Some(v@),
                None => doc_get_spec(self@, key@) is None,
            },
    {
        match self {
            DocValue::Table(entries) => {
                let ghost tv = doc_view(*self)->Table_0;
                proof {
                    assert(forall|j: int|
                        0 <= j < entries@.len() ==> #[trigger] tv[j] == (entries@[j].key@, doc_view(
                            entries@[j].value,
                        )));
                }
                let mut i: usize = 0;
                proof {
                    assert(tv.skip(0) =~= tv);
                }
                while i < entries.len()
                    invariant
                        i <= entries@.len(),
                        tv.len() == entries@.len(),
                        self@ == DocView::Table(tv),
                        forall|j: int|
                            0 <= j < entries@.len() ==> #[trigger] tv[j] == (
                                entries@[j].key@,
                                doc_view(entries@[j].value),
                            ),
                        table_get(tv, key@) == table_get(tv.skip(i as int), key@),
                    decreases entries@.len() - i,
                {
                    proof {
                        assert(tv.skip(i as int)[0] == tv[i as int]);
                        assert(tv.skip(i as int).drop_first() =~= tv.skip(i + 1));
                    }
                    if crate::codec::str_eq(entries[i].key.as_str(), key) {
                        return Some(&entries[i].value);
                    }
                    i += 1;
                }
                proof {
                    assert(tv.skip(i as int) =~= Seq::<(Seq<char>, DocView)>::empty());
                }
                None
            },
            DocValue::Str(_) => None,
            DocValue::Int(_) => None,
            DocValue::Bool(_) => None,
            DocValue::Array(_) => None,
            DocValue::Other => None,
        }
    }
}

/// An opaque structured value for one field, ready for decoding.
///
/// Built either from a document node directly, or from a raw string; in
/// the string case a comma makes it an array of per-segment string nodes,
/// else it is a single string node.
pub struct StructuredValue {
    node: DocValue,
}

/// The document node that a raw string stands for.
pub open spec fn text_to_doc(s: Seq<char>) -> DocView {
    if comma_free(s) {
        DocView::Str(s)
    } else {
        DocView::Array(split_text(s).map(|i: int, seg: Seq<char>| DocView::Str(seg)))
    }
}

impl View for StructuredValue {
    type V = DocView;

    closed spec fn view(&self) -> DocView {
        self.node@
    }
}

impl Clone for StructuredValue {
    /// Clone the wrapped node; the copy has the same view.
    fn clone(&self) -> (r: Self)
        ensures
            r@ == self@,
    {
        StructuredValue { node: self.node.clone() }
    }
}

impl StructuredValue {
    /// Wrap a parsed document node.
    pub fn from_doc(node: DocValue) -> (r: StructuredValue)
        ensures
            r@ == node@,
    {
        StructuredValue { node }
    }

    /// Unwrap the document node.
    pub fn into_doc(self) -> (r: DocValue)
        ensures
            r@ == self@,
    {
        self.node
    }

    /// Build a value from a raw string: split on commas into an array of
    /// string nodes when a comma occurs, else one string node.
    pub fn from_text(s: &str) -> (r: StructuredValue)
        ensures
            r@ == text_to_doc(s@),
    {
        let len = s.unicode_len();
        let mut has_comma = false;
        let mut i: usize = 0;
        while i < len
            invariant
                i <= len,
                len == s@.len(),
                has_comma ==> !comma_free(s@),
                !has_comma ==> forall|j: int| 0 <= j < i ==> s@[j] != ',',
            decreases len - i,
        {
            if s.get_char(i) == ',' {
                has_comma = true;
            }
            i += 1;
        }
        if !has_comma {
            return StructuredValue { node: DocValue::Str(s.to_owned()) };
        }
        let segs = crate::codec::split_commas(s);
        let mut items: Vec<DocValue> = Vec::new();
        let mut k: usize = 0;
        while k < segs.len()
            invariant
                k <= segs@.len(),
                items@.len() == k,
                segs.deep_view() == split_text(s@),
                forall|j: int| 0 <= j < k ==> #[trigger] items@[j]@ == DocView::Str(
                    segs.deep_view()[j],
                ),
            decreases segs@.len() - k,
        {
            proof {
                assert(segs.deep_view()[k as int] == segs@[k as int]@);
            }
            let t = segs[k].clone();
            items.push(DocValue::Str(t));
            k += 1;
        }
        proof {
            let a = doc_view(DocValue::Array(items))->Array_0;
            let b = split_text(s@).map(|i: int, seg: Seq<char>| DocView::Str(seg));
            assert(forall|j: int| 0 <= j < a.len() ==> #[trigger] a[j] == items@[j]@);
            assert(forall|j: int|
                0 <= j < b.len() ==> #[trigger] b[j] == DocView::Str(split_text(s@)[j]));
            assert(a =~= b);
        }
        StructuredValue { node: DocValue::Array(items) }
    }

    /// Decode this value into the kind a field expects, through the
    /// document coercions.
    pub fn decode(&self, kind: &Kind) -> (r: Result<FieldValue, DecodeFault>)
        ensures
            match r {
                Ok(v) => decode_doc_spec(self@, kind@) == Ok::<ValView, FaultView>(v@),
                Err(f) => decode_doc_spec(self@, kind@) == Err::<ValView, FaultView>(f@),
            },
    {
        decode_doc(&self.node, kind)
    }
}

/// The bytes of an array of integer nodes, each within one byte's range.
pub open spec fn bytes_of_elems(elems: Seq<DocView>) -> Option<Seq<u8>>
    decreases elems.len(),
{
    if elems.len() == 0 {
        Some(Seq::empty())
    } else {
        match elems[0] {
            DocView::Int(i) => if 0 <= i <= 255 {
                match bytes_of_elems(elems.drop_first()) {
                    Some(rest) => Some(seq![i as u8] + rest),
                    None => None,
                }
            } else {
                None
            },
            _ => None,
        }
    }
}

/// What decoding a document node into a kind yields: the structural
/// coercions of the document backend.
pub open spec fn decode_doc_spec(d: DocView, k: KindView) -> Result<ValView, FaultView>
    decreases k, 0int,
{
    match k {
        KindView::Bool => match d {
            DocView::Bool(b) => Ok(ValView::Bool(b)),
            _ => Err(FaultView::Mismatch),
        },
        KindView::U8 => doc_uint_result(d, u8::MAX as int),
        KindView::U16 => doc_uint_result(d, u16::MAX as int),
        KindView::U32 => doc_uint_result(d, u32::MAX as int),
        KindView::U64 => doc_uint_result(d, u64::MAX as int),
        KindView::I8 => doc_int_result(d, i8::MIN as int, i8::MAX as int),
        KindView::I16 => doc_int_result(d, i16::MIN as int, i16::MAX as int),
        KindView::I32 => doc_int_result(d, i32::MIN as int, i32::MAX as int),
        KindView::I64 => doc_int_result(d, i64::MIN as int, i64::MAX as int),
        KindView::F32 => Err(FaultView::Mismatch),
        KindView::F64 => Err(FaultView::Mismatch),
        KindView::Char => match d {
            DocView::Str(t) => if t.len() == 1 {
                Ok(ValView::Char(t[0]))
            } else {
                Err(FaultView::Invalid(t))
            },
            _ => Err(FaultView::Mismatch),
        },
        KindView::Str => match d {
            DocView::Str(t) => Ok(ValView::Str(t)),
            _ => Err(FaultView::Mismatch),
        },
        KindView::Bytes => match d {
            DocView::Array(elems) => match bytes_of_elems(elems) {
                Some(b) => Ok(ValView::Bytes(b)),
                None => Err(FaultView::Mismatch),
            },
            _ => Err(FaultView::Mismatch),
        },
        KindView::Unit => Err(FaultView::Mismatch),
        KindView::Optional(e) => match decode_doc_spec(d, *e) {
            Ok(v) => Ok(ValView::Optional(Some(Box::new(v)))),
            Err(f) => Err(f),
        },
        KindView::Sequence(e) => match d {
            DocView::Array(elems) => match decode_doc_elems(elems, *e) {
                Ok(vs) => Ok(ValView::Sequence(vs)),
                Err(f) => Err(f),
            },
            _ => Err(FaultView::Mismatch),
        },
        KindView::Enum(names) => match d {
            DocView::Str(t) => if contains_name(names, t) {
                Ok(ValView::Variant(t))
            } else {
                Err(FaultView::UnknownVariant(t))
            },
            _ => Err(FaultView::Mismatch),
        },
        KindView::EnumNonUnit => Err(FaultView::ExpectedUnitVariant),
        KindView::Table => Err(FaultView::Mismatch),
    }
}

/// Decoding each element of an array node, left to right, first error
/// wins.
pub open spec fn decode_doc_elems(elems: Seq<DocView>, k: KindView) -> Result<Seq<ValView>, FaultView>
    decreases k, elems.len() + 1,
{
    if elems.len() == 0 {
        Ok(Seq::empty())
    } else {
        match decode_doc_spec(elems[0], k) {
            Ok(v) => match decode_doc_elems(elems.drop_first(), k) {
                Ok(rest) => Ok(seq![v] + rest),
                Err(f) => Err(f),
            },
            Err(f) => Err(f),
        }
    }
}

/// The result of decoding an integer node into an unsigned kind.
pub open spec fn doc_uint_result(d: DocView, max: int) -> Result<ValView, FaultView> {
    match d {
        DocView::Int(i) => if 0 <= i <= max {
            Ok(ValView::UInt(i))
        } else {
            Err(FaultView::OutOfRange(i))
        },
        _ => Err(FaultView::Mismatch),
    }
}

/// The result of decoding an integer node into a signed kind.
pub open spec fn doc_int_result(d: DocView, min: int, max: int) -> Result<ValView, FaultView> {
    match d {
        DocView::Int(i) => if min <= i <= max {
            Ok(ValView::Int(i))
        } else {
            Err(FaultView::OutOfRange(i))
        },
        _ => Err(FaultView::Mismatch),
    }
}

/// A value the document decoder accepts fits its kind.
pub proof fn lemma_decode_doc_fits(d: DocView, k: KindView)
    requires
        decode_doc_spec(d, k) is Ok,
    ensures
        crate::codec::fits_kind(decode_doc_spec(d, k)->Ok_0, k),
    decreases k, 0int,
{
    match k {
        KindView::Optional(e) => {
            lemma_decode_doc_fits(d, *e);
        },
        KindView::Sequence(e) => {
            if d is Array {
                lemma_decode_doc_elems_fit(d->Array_0, *e);
            }
        },
        KindView::Bytes => {
            if d is Array {
                lemma_bytes_of_elems_len(d->Array_0);
            }
        },
        _ => {},
    }
}

/// The byte count of a byte array node equals its element count.
proof fn lemma_bytes_of_elems_len(elems: Seq<DocView>)
    ensures
        match bytes_of_elems(elems) {
            Some(b) => b.len() == elems.len(),
            None => true,
        },
    decreases elems.len(),
{
    if elems.len() > 0 {
        lemma_bytes_of_elems_len(elems.drop_first());
    }
}

/// Each element an array decode accepts fits the element kind.
pub proof fn lemma_decode_doc_elems_fit(elems: Seq<DocView>, k: KindView)
    requires
        decode_doc_elems(elems, k) is Ok,
    ensures
        ({
            let vs = decode_doc_elems(elems, k)->Ok_0;
            &&& vs.len() == elems.len()
            &&& forall|j: int| 0 <= j < vs.len() ==> crate::codec::fits_kind(#[trigger] vs[j], k)
        }),
    decreases k, elems.len() + 1,
{
    if elems.len() > 0 {
        lemma_decode_doc_fits(elems[0], k);
        lemma_decode_doc_elems_fit(elems.drop_first(), k);
        let v = decode_doc_spec(elems[0], k)->Ok_0;
        let rest = decode_doc_elems(elems.drop_first(), k)->Ok_0;
        assert(forall|j: int| 0 <= j < rest.len() ==> (seq![v] + rest)[j + 1] == #[trigger] rest[j]);
    }
}

/// Decode a document node into the kind a field expects.
pub fn decode_doc(d: &DocValue, kind: &Kind) -> (r: Result<FieldValue, DecodeFault>)
    ensures
        match r {
            Ok(v) => decode_doc_spec(d@, kind@) == Ok::<ValView, FaultView>(v@),
            Err(f) => decode_doc_spec(d@, kind@) == Err::<ValView, FaultView>(f@),
        },
    decreases *kind,
{
    match kind {
        Kind::Bool => match d {
            DocValue::Bool(b) => Ok(FieldValue::Bool(*b)),
            _ => Err(DecodeFault::Mismatch),
        },
        Kind::U8 => doc_uint(d, 255),
        Kind::U16 => doc_uint(d, 65535),
        Kind::U32 => doc_uint(d, 4294967295),
        Kind::U64 => doc_uint(d, 18446744073709551615),
        Kind::I8 => doc_int(d, -128, 127),
        Kind::I16 => doc_int(d, -32768, 32767),
        Kind::I32 => doc_int(d, -2147483648, 2147483647),
        Kind::I64 => doc_int(d, -9223372036854775808, 9223372036854775807),
        Kind::F32 => Err(DecodeFault::Mismatch),
        Kind::F64 => Err(DecodeFault::Mismatch),
        Kind::Char => match d {
            DocValue::Str(t) => if t.as_str().unicode_len() == 1 {
                Ok(FieldValue::Char(t.as_str().get_char(0)))
            } else {
                Err(DecodeFault::Invalid(t.clone()))
            },
            _ => Err(DecodeFault::Mismatch),
        },
        Kind::Str => match d {
            DocValue::Str(t) => Ok(FieldValue::Str(t.clone())),
            _ => Err(DecodeFault::Mismatch),
        },
        Kind::Bytes => match d {
            DocValue::Array(elems) => {
                let ghost ev = doc_view(*d)->Array_0;
                proof {
                    assert(forall|j: int|
                        0 <= j < elems@.len() ==> #[trigger] ev[j] == elems@[j]@);
                    assert(ev.skip(0) =~= ev);
                }
                let mut out: Vec<u8> = Vec::new();
                let mut i: usize = 0;
                while i < elems.len()
                    invariant
                        i <= elems@.len(),
                        out@.len() == i,
                        ev.len() == elems@.len(),
                        d@ == DocView::Array(ev),
                        kind@ == KindView::Bytes,
                        forall|j: int| 0 <= j < elems@.len() ==> #[trigger] ev[j] == elems@[j]@,
                        bytes_of_elems(ev) == match bytes_of_elems(ev.skip(i as int)) {
                            Some(rest) => Some(out@ + rest),
                            None => None::<Seq<u8>>,
                        },
                    decreases elems@.len() - i,
                {
                    proof {
                        assert(ev.skip(i as int)[0] == ev[i as int]);
                        assert(ev.skip(i as int).drop_first() =~= ev.skip(i + 1));
                    }
                    match &elems[i] {
                        DocValue::Int(x) => {
                            if *x < 0 || *x > 255 {
                                return Err(DecodeFault::Mismatch);
                            }
                            let ghost old_out = out@;
                            out.push(*x as u8);
                            proof {
                                if bytes_of_elems(ev.skip(i + 1)) is Some {
                                    let rest = bytes_of_elems(ev.skip(i + 1)).unwrap();
                                    assert(old_out + (seq![(*x) as u8] + rest) =~= out@ + rest);
                                }
                            }
                        },
                        _ => {
                            return Err(DecodeFault::Mismatch);
                        },
                    }
                    i += 1;
                }
                proof {
                    assert(ev.skip(i as int) =~= Seq::<DocView>::empty());
                    assert(out@ + Seq::<u8>::empty() =~= out@);
                }
                Ok(FieldValue::Bytes(out))
            },
            _ => Err(DecodeFault::Mismatch),
        },
        Kind::Unit => Err(DecodeFault::Mismatch),
        Kind::Optional(e) => match decode_doc(d, e) {
            Ok(v) => Ok(FieldValue::Optional(Some(Box::new(v)))),
            Err(f) => Err(f),
        },
        Kind::Sequence(e) => match d {
            DocValue::Array(elems) => {
                let ghost ev = doc_view(*d)->Array_0;
                proof {
                    assert(forall|j: int|
                        0 <= j < elems@.len() ==> #[trigger] ev[j] == elems@[j]@);
                    assert(ev.skip(0) =~= ev);
                }
                let mut out: Vec<FieldValue> = Vec::new();
                let mut i: usize = 0;
                let mut failed: Option<DecodeFault> = None;
                while i < elems.len() && failed.is_none()
                    invariant
                        i <= elems@.len(),
                        ev.len() == elems@.len(),
                        d@ == DocView::Array(ev),
                        decreases_to!(*kind => **e),
                        forall|j: int| 0 <= j < elems@.len() ==> #[trigger] ev[j] == elems@[j]@,
                        match failed {
                            None => out@.len() == i && decode_doc_elems(ev, kind_view(**e))
                                == match decode_doc_elems(ev.skip(i as int), kind_view(**e)) {
                                Ok(rest) => Ok::<Seq<ValView>, FaultView>(
                                    Seq::new(out@.len(), |j: int| val_view(out@[j])) + rest,
                                ),
                                Err(f) => Err::<Seq<ValView>, FaultView>(f),
                            },
                            Some(f) => decode_doc_elems(ev, kind_view(**e)) == Err::<
                                Seq<ValView>,
                                FaultView,
                            >(f@),
                        },
                    decreases elems@.len() - i,
                {
                    proof {
                        assert(ev.skip(i as int)[0] == ev[i as int]);
                        assert(ev.skip(i as int).drop_first() =~= ev.skip(i + 1));
                        broadcast use vstd::std_specs::vec::group_vec_axioms;

                        assert(decreases_to!(*elems => elems@));
                        assert(decreases_to!(elems@ => elems@[i as int]));
                    }
                    match decode_doc(&elems[i], e) {
                        Ok(v) => {
                            let ghost old_views = Seq::new(out@.len(), |j: int| val_view(out@[j]));
                            out.push(v);
                            proof {
                                assert(Seq::new(out@.len(), |j: int| val_view(out@[j])) =~= old_views
                                    + seq![v@]);
                                if decode_doc_elems(ev.skip(i + 1), kind_view(**e)) is Ok {
                                    let rest = decode_doc_elems(
                                        ev.skip(i + 1),
                                        kind_view(**e),
                                    )->Ok_0;
                                    assert(old_views + (seq![v@] + rest) =~= (old_views + seq![v@])
                                        + rest);
                                }
                            }
                        },
                        Err(f) => {
                            failed = Some(f);
                        },
                    }
                    i += 1;
                }
                match failed {
                    Some(f) => Err(f),
                    None => {
                        proof {
                            assert(ev.skip(i as int) =~= Seq::<DocView>::empty());
                            let views = Seq::new(out@.len(), |j: int| val_view(out@[j]));
                            assert(views + Seq::<ValView>::empty() =~= views);
                            let els = val_view(FieldValue::Sequence(out))->Sequence_0;
                            assert(els.len() == out@.len());
                            assert(forall|j: int|
                                0 <= j < out@.len() ==> #[trigger] els[j] == val_view(out@[j]));
                            assert(els =~= views);
                            assert(val_view(FieldValue::Sequence(out)) == ValView::Sequence(
                                views,
                            ));
                        }
                        Ok(FieldValue::Sequence(out))
                    },
                }
            },
            _ => Err(DecodeFault::Mismatch),
        },
        Kind::Enum(names) => match d {
            DocValue::Str(t) => {
                let n = names.len();
                let mut j: usize = 0;
                while j < n
                    invariant
                        j <= n,
                        n == names@.len(),
                        kind@ == KindView::Enum(names.deep_view()),
                        d@ == DocView::Str(t@),
                        forall|x: int| 0 <= x < j ==> names.deep_view()[x] != t@,
                    decreases n - j,
                {
                    assert(names.deep_view()[j as int] == names@[j as int]@);
                    if crate::codec::str_eq(names[j].as_str(), t.as_str()) {
                        proof {
                            let nv = names.deep_view();
                            assert(nv[j as int] == t@);
                            assert(contains_name(nv, t@));
                        }
                        return Ok(FieldValue::Variant(t.clone()));
                    }
                    j += 1;
                }
                proof {
                    let nv = names.deep_view();
                    assert(forall|x: int| 0 <= x < nv.len() ==> #[trigger] nv[x] != t@);
                    assert(!contains_name(nv, t@));
                }
                Err(DecodeFault::UnknownVariant(t.clone()))
            },
            _ => Err(DecodeFault::Mismatch),
        },
        Kind::EnumNonUnit => Err(DecodeFault::ExpectedUnitVariant),
        Kind::Table => Err(DecodeFault::Mismatch),
    }
}

/// Decode an integer node into an unsigned kind bounded by `max`.
fn doc_uint(d: &DocValue, max: u64) -> (r: Result<FieldValue, DecodeFault>)
    ensures
        match r {
            Ok(v) => doc_uint_result(d@, max as int) == Ok::<ValView, FaultView>(v@),
            Err(f) => doc_uint_result(d@, max as int) == Err::<ValView, FaultView>(f@),
        },
{
    match d {
        DocValue::Int(i) => if *i >= 0 && (*i as u64) <= max {
            Ok(FieldValue::UInt(*i as u64))
        } else {
            Err(DecodeFault::OutOfRange(*i))
        },
        _ => Err(DecodeFault::Mismatch),
    }
}

/// Decode an integer node into a signed kind within `min ..= max`.
fn doc_int(d: &DocValue, min: i64, max: i64) -> (r: Result<FieldValue, DecodeFault>)
    ensures
        match r {
            Ok(v) => doc_int_result(d@, min as int, max as int) == Ok::<ValView, FaultView>(v@),
            Err(f) => doc_int_result(d@, min as int, max as int) == Err::<ValView, FaultView>(f@),
        },
{
    match d {
        DocValue::Int(i) => if *i >= min && *i <= max {
            Ok(FieldValue::Int(*i))
        } else {
            Err(DecodeFault::OutOfRange(*i))
        },
        _ => Err(DecodeFault::Mismatch),
    }
}

} // verus!
