//! A ready-made configuration struct, resolved through the full walk.

use vstd::prelude::*;
use crate::codec::{fits_kind, val_view, FieldValue, Kind, KindView, ValView};
use crate::resolver::{lemma_resolve_fits, resolve_fields, resolve_spec, DescView, FieldDescriptor};
use crate::source::{ConfigError, ConfigSource};
use crate::Configure;

verus! {

/// A configuration of three fields: a number, a name, and an optional
/// list of small numbers.
#[derive(Debug, PartialEq, Eq)]
pub struct Configuration {
    pub first_field: u32,
    pub second_field: String,
    pub third_field: Option<Vec<u16>>,
}

impl Default for Configuration {
    /// The built-in defaults of each field.
    fn default() -> (r: Configuration)
        ensures
            r.first_field == 100,
            r.second_field@ == "FooBar"@,
            r.third_field matches Some(v) && v@.len() == 0,
            r.fields_view() == Configuration::defaults_view(),
    {
        let r = Configuration {
            first_field: 100,
            second_field: "FooBar".to_owned(),
            third_field: Some(Vec::new()),
        };
        proof {
            assert(r.fields_view() =~= Configuration::defaults_view()) by {
                assert(r.fields_view()[2] == Configuration::defaults_view()[2]) by {
                    let v = r.third_field->Some_0;
                    assert(v@.map(|i: int, x: u16| ValView::UInt(x as int)) =~= Seq::<
                        ValView,
                    >::empty());
                };
            };
        }
        r
    }
}

impl Configure for Configuration {
    /// The package the fields are namespaced under.
    open spec fn package_spec() -> Seq<char> {
        "test"@
    }

    /// Three fields: a 32-bit number, a string, an optional sequence of
    /// 16-bit numbers.
    open spec fn descriptors_spec() -> Seq<DescView> {
        seq![
            DescView { name: "first_field"@, kind: KindView::U32 },
            DescView { name: "second_field"@, kind: KindView::Str },
            DescView {
                name: "third_field"@,
                kind: KindView::Optional(Box::new(KindView::Sequence(Box::new(KindView::U16)))),
            },
        ]
    }

    /// The fields as decoded values, in declared order.
    open spec fn fields_view(&self) -> Seq<ValView> {
        seq![
            ValView::UInt(self.first_field as int),
            ValView::Str(self.second_field@),
            ValView::Optional(
                match self.third_field {
                    Some(v) => Some(
                        Box::new(
                            ValView::Sequence(v@.map(|i: int, x: u16| ValView::UInt(x as int))),
                        ),
                    ),
                    None => None,
                },
            ),
        ]
    }

    /// The default instance's fields.
    open spec fn defaults_view() -> Seq<ValView> {
        seq![
            ValView::UInt(100),
            ValView::Str("FooBar"@),
            ValView::Optional(Some(Box::new(ValView::Sequence(Seq::<ValView>::empty())))),
        ]
    }

    fn generate(source: &mut ConfigSource) -> (r: Result<Configuration, ConfigError>) {
        let mut descs: Vec<FieldDescriptor> = Vec::new();
        descs.push(FieldDescriptor { name: "first_field".to_owned(), kind: Kind::U32 });
        descs.push(FieldDescriptor { name: "second_field".to_owned(), kind: Kind::Str });
        descs.push(
            FieldDescriptor {
                name: "third_field".to_owned(),
                kind: Kind::Optional(Box::new(Kind::Sequence(Box::new(Kind::U16)))),
            },
        );
        proof {
            assert(crate::codec::kind_view(Kind::U16) == KindView::U16);
            assert(crate::codec::kind_view(Kind::Sequence(Box::new(Kind::U16)))
                == KindView::Sequence(Box::new(KindView::U16)));
            assert(descs.deep_view() =~= Self::descriptors_spec()) by {
                assert(descs.deep_view()[0] == descs@[0]@);
                assert(descs.deep_view()[1] == descs@[1]@);
                assert(descs.deep_view()[2] == descs@[2]@);
            };
        }
        let mut defaults: Vec<FieldValue> = Vec::new();
        defaults.push(FieldValue::UInt(100));
        defaults.push(FieldValue::Str("FooBar".to_owned()));
        defaults.push(FieldValue::Optional(Some(Box::new(FieldValue::Sequence(Vec::new())))));
        proof {
            assert(defaults.deep_view() =~= Self::defaults_view()) by {
                assert(defaults.deep_view()[0] == val_view(defaults@[0]));
                assert(defaults.deep_view()[1] == val_view(defaults@[1]));
                assert(defaults.deep_view()[2] == val_view(defaults@[2]));
                let inner = defaults@[2]->Optional_0->Some_0;
                assert(val_view(*inner)->Sequence_0 =~= Seq::<ValView>::empty());
            };
        }
        let out = match resolve_fields("test", &descs, &defaults, source) {
            Ok(out) => out,
            Err(e) => {
                return Err(e);
            },
        };
        let ghost res = resolve_spec(
            Self::package_spec(),
            Self::descriptors_spec(),
            Self::defaults_view(),
            old(source)@,
        ).0;
        proof {
            assert forall|j: int|
                0 <= j < Self::descriptors_spec().len() implies fits_kind(
                #[trigger] Self::defaults_view()[j],
                Self::descriptors_spec()[j].kind,
            ) by {
                if j == 2 {
                    let d = Self::defaults_view()[2];
                    assert(fits_kind(
                        ValView::Sequence(Seq::<ValView>::empty()),
                        KindView::Sequence(Box::new(KindView::U16)),
                    ));
                }
            }
            lemma_resolve_fits(
                Self::package_spec(),
                Self::descriptors_spec(),
                Self::defaults_view(),
                old(source)@,
            );
            assert(out.deep_view() == res->Ok_0);
            assert(out.deep_view().len() == 3);
            assert(out@.len() == 3);
            assert(out.deep_view()[0] == val_view(out@[0]));
            assert(out.deep_view()[1] == val_view(out@[1]));
            assert(out.deep_view()[2] == val_view(out@[2]));
            assert(fits_kind(val_view(out@[0]), KindView::U32));
            assert(fits_kind(val_view(out@[1]), KindView::Str));
            assert(fits_kind(
                val_view(out@[2]),
                KindView::Optional(Box::new(KindView::Sequence(Box::new(KindView::U16)))),
            ));
        }
        let first: u32 = match &out[0] {
            FieldValue::UInt(x) => *x as u32,
            _ => {
                proof {
                    assert(false);
                }
                0
            },
        };
        let second: String = match &out[1] {
            FieldValue::Str(t) => t.clone(),
            _ => {
                proof {
                    assert(false);
                }
                String::new()
            },
        };
        let third: Option<Vec<u16>> = match &out[2] {
            FieldValue::Optional(o) => match o {
                None => None,
                Some(b) => {
                    proof {
                        assert(val_view(out@[2]) == ValView::Optional(
                            Some(Box::new(val_view(**b))),
                        ));
                        assert(fits_kind(val_view(**b), KindView::Sequence(Box::new(
                            KindView::U16,
                        ))));
                    }
                    match &**b {
                    FieldValue::Sequence(items) => {
                        let mut v: Vec<u16> = Vec::new();
                        let mut i: usize = 0;
                        while i < items.len()
                            invariant
                                i <= items@.len(),
                                v@.len() == i,
                                fits_kind(
                                    val_view(FieldValue::Sequence(*items)),
                                    KindView::Sequence(Box::new(KindView::U16)),
                                ),
                                forall|j: int|
                                    0 <= j < i ==> val_view(#[trigger] items@[j])
                                        == ValView::UInt(v@[j] as int),
                            decreases items@.len() - i,
                        {
                            proof {
                                let sv = val_view(FieldValue::Sequence(*items))->Sequence_0;
                                assert(sv[i as int] == val_view(items@[i as int]));
                                assert(fits_kind(sv[i as int], KindView::U16));
                            }
                            match &items[i] {
                                FieldValue::UInt(x) => {
                                    v.push(*x as u16);
                                },
                                _ => {
                                    proof {
                                        assert(false);
                                    }
                                },
                            }
                            i += 1;
                        }
                        proof {
                            let sv = val_view(FieldValue::Sequence(*items))->Sequence_0;
                            assert(v@.map(|j: int, x: u16| ValView::UInt(x as int)) =~= sv);
                        }
                        Some(v)
                    },
                    _ => {
                        proof {
                            assert(false);
                        }
                        None
                    },
                }
                },
            },
            _ => {
                proof {
                    assert(false);
                }
                None
            },
        };
        let cfg = Configuration { first_field: first, second_field: second, third_field: third };
        proof {
            assert(cfg.fields_view() =~= out.deep_view());
        }
        Ok(cfg)
    }
}

} // verus!
