//! The struct-level walk: resolve each declared field in order, fail
//! fast on the first error, keep the default where nothing was found.

use vstd::prelude::*;
use crate::codec::{
    decode_text, decode_text_spec, DecodeFault, FaultView, FieldValue, Kind, KindView, ValView,
};
use crate::source::{
    env_var_name, source_find_spec, upper_snake_of, ConfigError, ConfigSource, ErrView, RawValue,
    RawView, SourceView,
};
use crate::value::{decode_doc, decode_doc_spec};

verus! {

/// What one configuration field expects: its name and its kind.
pub struct FieldDescriptor {
    pub name: String,
    pub kind: Kind,
}

/// The mathematical form of a field descriptor.
pub struct DescView {
    pub name: Seq<char>,
    pub kind: KindView,
}

impl View for FieldDescriptor {
    type V = DescView;

    open spec fn view(&self) -> DescView {
        DescView { name: self.name@, kind: self.kind@ }
    }
}

impl DeepView for FieldDescriptor {
    type V = DescView;

    open spec fn deep_view(&self) -> DescView {
        self@
    }
}

impl Clone for FieldDescriptor {
    /// Clone a descriptor; the copy has the same view.
    fn clone(&self) -> (r: Self)
        ensures
            r@ == self@,
    {
        FieldDescriptor { name: self.name.clone(), kind: self.kind.clone() }
    }
}

/// What decoding a raw value into a kind yields, by the backend the
/// value came from: the text grammar for environment text, the
/// structural coercions for a document node.
pub open spec fn decode_raw_spec(raw: RawView, k: KindView) -> Result<ValView, FaultView> {
    match raw {
        RawView::Text(t) => decode_text_spec(t, k),
        RawView::Structured(d) => decode_doc_spec(d, k),
    }
}

/// Decode a raw value into the kind a field expects.
pub fn decode_raw(raw: &RawValue, kind: &Kind) -> (r: Result<FieldValue, DecodeFault>)
    ensures
        match r {
            Ok(v) => decode_raw_spec(raw@, kind@) == Ok::<ValView, FaultView>(v@),
            Err(f) => decode_raw_spec(raw@, kind@) == Err::<ValView, FaultView>(f@),
        },
{
    match raw {
        RawValue::Text(t) => decode_text(t.as_str(), kind),
        RawValue::Structured(d) => decode_doc(d, kind),
    }
}

/// What the whole walk yields, with the source state it leaves: for each
/// field in declared order, look its environment variable name up in the
/// source; decode what was found, keep the default on absence, and stop
/// at the first error with no partial result.
pub open spec fn resolve_spec(
    package: Seq<char>,
    descs: Seq<DescView>,
    defaults: Seq<ValView>,
    src: SourceView,
) -> (Result<Seq<ValView>, ErrView>, SourceView)
    decreases descs.len(),
{
    if descs.len() == 0 {
        (Ok(Seq::empty()), src)
    } else {
        let var = upper_snake_of(package + seq!['_'] + descs[0].name);
        let step = source_find_spec(src, var, package, descs[0].name);
        match step.0 {
            Err(e) => (Err(e), step.1),
            Ok(found) => {
                let first = match found {
                    None => Ok(defaults[0]),
                    Some(raw) => decode_raw_spec(raw, descs[0].kind),
                };
                match first {
                    Err(f) => (
                        Err(
                            ErrView::Decode {
                                field: descs[0].name,
                                kind: descs[0].kind,
                                fault: f,
                            },
                        ),
                        step.1,
                    ),
                    Ok(v) => {
                        let rest = resolve_spec(
                            package,
                            descs.drop_first(),
                            defaults.drop_first(),
                            step.1,
                        );
                        match rest.0 {
                            Ok(vs) => (Ok(seq![v] + vs), rest.1),
                            Err(e) => (Err(e), rest.1),
                        }
                    },
                }
            },
        }
    }
}

/// A source with nothing to yield for these fields: the empty source,
/// an environment where no relevant variable is set and no document was
/// loaded, or a supplied table with no relevant entry.
pub open spec fn finds_nothing(src: SourceView, package: Seq<char>, descs: Seq<DescView>) -> bool {
    match src {
        SourceView::Null => true,
        SourceView::EnvAndDocument(d) => d.doc is Absent && (forall|i: int|
            0 <= i < descs.len() ==> crate::source::env_get(
                d.env,
                upper_snake_of(package + seq!['_'] + (#[trigger] descs[i]).name),
            ) is None),
        SourceView::UserSupplied(entries) => forall|i: int|
            0 <= i < descs.len() ==> crate::source::supplied_get(
                entries,
                package,
                (#[trigger] descs[i]).name,
            ) is None,
    }
}

/// With no relevant environment variables set and no document loaded,
/// resolution returns exactly the defaults, and leaves the source as it
/// was.
pub proof fn lemma_defaults_when_empty(
    package: Seq<char>,
    descs: Seq<DescView>,
    defaults: Seq<ValView>,
    src: SourceView,
)
    requires
        descs.len() == defaults.len(),
        finds_nothing(src, package, descs),
    ensures
        resolve_spec(package, descs, defaults, src).0 == Ok::<Seq<ValView>, ErrView>(defaults),
        resolve_spec(package, descs, defaults, src).1 == src,
    decreases descs.len(),
{
    if descs.len() == 0 {
        assert(defaults =~= Seq::<ValView>::empty());
    } else {
        let var = upper_snake_of(package + seq!['_'] + descs[0].name);
        let step = source_find_spec(src, var, package, descs[0].name);
        assert(step.0 == Ok::<Option<RawView>, ErrView>(None) && step.1 == src);
        assert(finds_nothing(src, package, descs.drop_first())) by {
            match src {
                SourceView::EnvAndDocument(d) => {
                    assert forall|i: int|
                        0 <= i < descs.drop_first().len() implies crate::source::env_get(
                        d.env,
                        upper_snake_of(
                            package + seq!['_'] + (#[trigger] descs.drop_first()[i]).name,
                        ),
                    ) is None by {
                        assert(descs.drop_first()[i] == descs[i + 1]);
                    }
                },
                SourceView::UserSupplied(entries) => {
                    assert forall|i: int|
                        0 <= i < descs.drop_first().len() implies crate::source::supplied_get(
                        entries,
                        package,
                        (#[trigger] descs.drop_first()[i]).name,
                    ) is None by {
                        assert(descs.drop_first()[i] == descs[i + 1]);
                    }
                },
                SourceView::Null => {},
            }
        }
        lemma_defaults_when_empty(package, descs.drop_first(), defaults.drop_first(), src);
        assert(seq![defaults[0]] + defaults.drop_first() =~= defaults);
    }
}

/// A resolution that succeeds fills every declared field.
pub proof fn lemma_resolve_ok_len(
    package: Seq<char>,
    descs: Seq<DescView>,
    defaults: Seq<ValView>,
    src: SourceView,
)
    requires
        resolve_spec(package, descs, defaults, src).0 is Ok,
    ensures
        resolve_spec(package, descs, defaults, src).0->Ok_0.len() == descs.len(),
    decreases descs.len(),
{
    if descs.len() > 0 {
        let var = upper_snake_of(package + seq!['_'] + descs[0].name);
        let step = source_find_spec(src, var, package, descs[0].name);
        lemma_resolve_ok_len(package, descs.drop_first(), defaults.drop_first(), step.1);
    }
}

/// A lookup in the built-in source keeps its environment, whatever it
/// answers.
proof fn lemma_find_keeps_env(src: SourceView, var: Seq<char>, package: Seq<char>, field: Seq<char>)
    requires
        src is EnvAndDocument,
    ensures
        ({
            let next = source_find_spec(src, var, package, field).1;
            &&& next is EnvAndDocument
            &&& next->EnvAndDocument_0.env == src->EnvAndDocument_0.env
            &&& (src->EnvAndDocument_0.doc is Loaded ==> next->EnvAndDocument_0.doc
                == src->EnvAndDocument_0.doc)
        }),
{
}

/// A field with a valid environment variable set resolves to the
/// decoded value of that variable, whatever the document holds: the
/// environment always overrides the document.
pub proof fn lemma_env_overrides(
    package: Seq<char>,
    descs: Seq<DescView>,
    defaults: Seq<ValView>,
    src: SourceView,
    i: int,
    t: Seq<char>,
)
    requires
        descs.len() == defaults.len(),
        0 <= i < descs.len(),
        src is EnvAndDocument,
        crate::source::env_get(
            src->EnvAndDocument_0.env,
            upper_snake_of(package + seq!['_'] + descs[i].name),
        ) == Some(crate::source::EnvEntryView::Text(t)),
        resolve_spec(package, descs, defaults, src).0 is Ok,
    ensures
        decode_text_spec(t, descs[i].kind) is Ok,
        resolve_spec(package, descs, defaults, src).0->Ok_0[i] == decode_text_spec(
            t,
            descs[i].kind,
        )->Ok_0,
    decreases descs.len(),
{
    let var = upper_snake_of(package + seq!['_'] + descs[0].name);
    let step = source_find_spec(src, var, package, descs[0].name);
    lemma_find_keeps_env(src, var, package, descs[0].name);
    if i == 0 {
        assert(step.0 == Ok::<Option<RawView>, ErrView>(Some(RawView::Text(t))));
        lemma_resolve_ok_len(package, descs.drop_first(), defaults.drop_first(), step.1);
    } else {
        lemma_env_overrides(
            package,
            descs.drop_first(),
            defaults.drop_first(),
            step.1,
            i - 1,
            t,
        );
        assert(descs.drop_first()[i - 1] == descs[i]);
        let v = match step.0->Ok_0 {
            None => defaults[0],
            Some(raw) => decode_raw_spec(raw, descs[0].kind)->Ok_0,
        };
        let rest = resolve_spec(package, descs.drop_first(), defaults.drop_first(), step.1);
        assert(rest.0 is Ok);
        lemma_resolve_ok_len(package, descs.drop_first(), defaults.drop_first(), step.1);
        assert((seq![v] + rest.0->Ok_0)[i] == rest.0->Ok_0[i - 1]);
    }
}

/// A field absent from the environment but present in the loaded
/// document resolves to the decoded document value.
pub proof fn lemma_document_fallback(
    package: Seq<char>,
    descs: Seq<DescView>,
    defaults: Seq<ValView>,
    src: SourceView,
    i: int,
    node: crate::value::DocView,
)
    requires
        descs.len() == defaults.len(),
        0 <= i < descs.len(),
        src is EnvAndDocument,
        src->EnvAndDocument_0.doc is Loaded,
        crate::source::env_get(
            src->EnvAndDocument_0.env,
            upper_snake_of(package + seq!['_'] + descs[i].name),
        ) is None,
        ({
            let doc = src->EnvAndDocument_0.doc->Loaded_0;
            match crate::value::doc_get_spec(doc, package) {
                Some(pkg) => crate::value::doc_get_spec(pkg, descs[i].name) == Some(node),
                None => false,
            }
        }),
        resolve_spec(package, descs, defaults, src).0 is Ok,
    ensures
        decode_doc_spec(node, descs[i].kind) is Ok,
        resolve_spec(package, descs, defaults, src).0->Ok_0[i] == decode_doc_spec(
            node,
            descs[i].kind,
        )->Ok_0,
    decreases descs.len(),
{
    let var = upper_snake_of(package + seq!['_'] + descs[0].name);
    let step = source_find_spec(src, var, package, descs[0].name);
    lemma_find_keeps_env(src, var, package, descs[0].name);
    if i == 0 {
        assert(step.0 == Ok::<Option<RawView>, ErrView>(Some(RawView::Structured(node))));
        lemma_resolve_ok_len(package, descs.drop_first(), defaults.drop_first(), step.1);
    } else {
        lemma_document_fallback(
            package,
            descs.drop_first(),
            defaults.drop_first(),
            step.1,
            i - 1,
            node,
        );
        assert(descs.drop_first()[i - 1] == descs[i]);
        let v = match step.0->Ok_0 {
            None => defaults[0],
            Some(raw) => decode_raw_spec(raw, descs[0].kind)->Ok_0,
        };
        let rest = resolve_spec(package, descs.drop_first(), defaults.drop_first(), step.1);
        assert(rest.0 is Ok);
        lemma_resolve_ok_len(package, descs.drop_first(), defaults.drop_first(), step.1);
        assert((seq![v] + rest.0->Ok_0)[i] == rest.0->Ok_0[i - 1]);
    }
}

/// A raw value the decoder accepts fits its kind, whichever backend it
/// came from.
pub proof fn lemma_decode_raw_fits(raw: RawView, k: KindView)
    requires
        decode_raw_spec(raw, k) is Ok,
    ensures
        crate::codec::fits_kind(decode_raw_spec(raw, k)->Ok_0, k),
{
    match raw {
        RawView::Text(t) => crate::codec::lemma_decode_text_fits(t, k),
        RawView::Structured(d) => crate::value::lemma_decode_doc_fits(d, k),
    }
}

/// When resolution succeeds and every default fits its field's kind,
/// every resolved field fits its kind too.
pub proof fn lemma_resolve_fits(
    package: Seq<char>,
    descs: Seq<DescView>,
    defaults: Seq<ValView>,
    src: SourceView,
)
    requires
        descs.len() == defaults.len(),
        resolve_spec(package, descs, defaults, src).0 is Ok,
        forall|j: int|
            0 <= j < descs.len() ==> crate::codec::fits_kind(
                #[trigger] defaults[j],
                descs[j].kind,
            ),
    ensures
        ({
            let out = resolve_spec(package, descs, defaults, src).0->Ok_0;
            &&& out.len() == descs.len()
            &&& forall|j: int|
                0 <= j < out.len() ==> crate::codec::fits_kind(#[trigger] out[j], descs[j].kind)
        }),
    decreases descs.len(),
{
    if descs.len() > 0 {
        let var = upper_snake_of(package + seq!['_'] + descs[0].name);
        let step = source_find_spec(src, var, package, descs[0].name);
        let v = match step.0->Ok_0 {
            None => defaults[0],
            Some(raw) => decode_raw_spec(raw, descs[0].kind)->Ok_0,
        };
        match step.0->Ok_0 {
            None => {},
            Some(raw) => {
                lemma_decode_raw_fits(raw, descs[0].kind);
            },
        }
        assert(forall|j: int|
            0 <= j < descs.drop_first().len() ==> crate::codec::fits_kind(
                #[trigger] defaults.drop_first()[j],
                descs.drop_first()[j].kind,
            ));
        lemma_resolve_fits(package, descs.drop_first(), defaults.drop_first(), step.1);
        let rest = resolve_spec(package, descs.drop_first(), defaults.drop_first(), step.1).0->Ok_0;
        assert(forall|j: int|
            0 <= j < rest.len() ==> (seq![v] + rest)[j + 1] == #[trigger] rest[j]);
    }
}

/// Resolve every declared field against the active source: the decoded
/// value where one was found, the default where none was, and the first
/// error with no partial result.
pub fn resolve_fields(
    package: &str,
    descs: &Vec<FieldDescriptor>,
    defaults: &Vec<FieldValue>,
    source: &mut ConfigSource,
) -> (r: Result<Vec<FieldValue>, ConfigError>)
    requires
        descs@.len() == defaults@.len(),
    ensures
        ({
            let (res, s2) = resolve_spec(
                package@,
                descs.deep_view(),
                defaults.deep_view(),
                old(source)@,
            );
            &&& final(source)@ == s2
            &&& match r {
                Ok(vs) => res == Ok::<Seq<ValView>, ErrView>(vs.deep_view()),
                Err(e) => res == Err::<Seq<ValView>, ErrView>(e@),
            }
        }),
{
    let ghost dv = descs.deep_view();
    let ghost defv = defaults.deep_view();
    let mut out: Vec<FieldValue> = Vec::new();
    let mut i: usize = 0;
    proof {
        assert(dv.skip(0) =~= dv);
        assert(defv.skip(0) =~= defv);
        assert(out.deep_view() + resolve_spec(package@, dv, defv, old(source)@).0->Ok_0 =~= resolve_spec(
            package@,
            dv,
            defv,
            old(source)@,
        ).0->Ok_0);
    }
    while i < descs.len()
        invariant
            i <= descs@.len(),
            descs@.len() == defaults@.len(),
            dv == descs.deep_view(),
            defv == defaults.deep_view(),
            dv.len() == descs@.len(),
            defv.len() == defaults@.len(),
            out@.len() == i,
            ({
                let (res, s2) = resolve_spec(package@, dv, defv, old(source)@);
                let (resi, s2i) = resolve_spec(
                    package@,
                    dv.skip(i as int),
                    defv.skip(i as int),
                    source@,
                );
                &&& s2 == s2i
                &&& res == match resi {
                    Ok(rest) => Ok::<Seq<ValView>, ErrView>(out.deep_view() + rest),
                    Err(e) => Err::<Seq<ValView>, ErrView>(e),
                }
            }),
        decreases descs@.len() - i,
    {
        proof {
            assert(dv[i as int] == descs@[i as int]@);
            assert(defv[i as int] == defaults@[i as int].deep_view());
            assert(dv.skip(i as int)[0] == dv[i as int]);
            assert(defv.skip(i as int)[0] == defv[i as int]);
            assert(dv.skip(i as int).drop_first() =~= dv.skip(i + 1));
            assert(defv.skip(i as int).drop_first() =~= defv.skip(i + 1));
        }
        let var = env_var_name(package, descs[i].name.as_str());
        let ghost pre = source@;
        let found = source.find(var.as_str(), package, descs[i].name.as_str());
        match found {
            Err(e) => {
                return Err(e);
            },
            Ok(None) => {
                let ghost old_views = out.deep_view();
                let d = defaults[i].clone();
                out.push(d);
                proof {
                    assert(out.deep_view() =~= old_views + seq![defv[i as int]]);
                    let rest = resolve_spec(
                        package@,
                        dv.skip(i + 1),
                        defv.skip(i + 1),
                        source@,
                    ).0;
                    if rest is Ok {
                        assert(old_views + (seq![defv[i as int]] + rest->Ok_0) =~= out.deep_view()
                            + rest->Ok_0);
                    }
                }
            },
            Ok(Some(raw)) => {
                match decode_raw(&raw, &descs[i].kind) {
                    Ok(v) => {
                        let ghost old_views = out.deep_view();
                        out.push(v);
                        proof {
                            assert(out.deep_view() =~= old_views + seq![v@]);
                            let rest = resolve_spec(
                                package@,
                                dv.skip(i + 1),
                                defv.skip(i + 1),
                                source@,
                            ).0;
                            if rest is Ok {
                                assert(old_views + (seq![v@] + rest->Ok_0) =~= out.deep_view()
                                    + rest->Ok_0);
                            }
                        }
                    },
                    Err(f) => {
                        return Err(
                            ConfigError::Decode {
                                field: descs[i].name.clone(),
                                kind: descs[i].kind.clone(),
                                fault: f,
                            },
                        );
                    },
                }
            },
        }
        i += 1;
    }
    proof {
        assert(dv.skip(i as int) =~= Seq::<DescView>::empty());
        assert(defv.skip(i as int) =~= Seq::<ValView>::empty());
        assert(out.deep_view() + Seq::<ValView>::empty() =~= out.deep_view());
    }
    Ok(out)
}

} // verus!
