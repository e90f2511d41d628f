//! The resolution of a whole run of specifiers, and the laws it obeys: its
//! result depends on which keywords are written, not on their order, and
//! harmless repetitions, however many and wherever written, change nothing
//! but the warnings, of which there is one for each, at its place.

use crate::data::{BaseType, Keyword, Locatable, Qualifiers, SpecType, StorageClass};
use crate::message::duplicate_specifier_text;
use crate::specifiers::SpecSpecifiers;
use vstd::multiset::Multiset;
use vstd::prelude::*;

verus! {

/// What a run of specifier keywords resolves to: the keywords seen, what
/// they establish, and the warnings for the harmless repetitions among them.
pub struct Resolution {
    pub seen: Set<Keyword>,
    pub specifiers: SpecSpecifiers,
    pub warnings: Seq<Locatable<Seq<char>>>,
}

impl Resolution {
    /// The resolution of the first keyword alone.
    pub open spec fn begin(start: Keyword) -> Resolution {
        Resolution {
            seen: set![start],
            specifiers: SpecSpecifiers::initial(start),
            warnings: Seq::empty(),
        }
    }

    /// Whether the next keyword draws a warning: it has been seen and may be
    /// repeated.
    pub open spec fn warns(self, keyword: Keyword) -> bool {
        self.seen.contains(keyword) && SpecSpecifiers::repeatable(keyword)
    }

    /// This resolution after one more keyword.
    pub open spec fn add(self, keyword: Locatable<Keyword>) -> Resolution {
        if self.seen.contains(keyword.data) {
            Resolution {
                seen: self.seen,
                specifiers: self.specifiers.repeat(keyword.data, keyword.location),
                warnings: if self.warns(keyword.data) {
                    self.warnings.push(
                        Locatable {
                            data: duplicate_specifier_text(keyword.data),
                            location: keyword.location,
                        },
                    )
                } else {
                    self.warnings
                },
            }
        } else {
            Resolution {
                seen: self.seen.insert(keyword.data),
                specifiers: self.specifiers.combine(keyword.data, keyword.location),
                warnings: self.warnings,
            }
        }
    }

    /// The resolution of a first keyword and the run of keywords after it.
    pub open spec fn of(start: Keyword, run: Seq<Locatable<Keyword>>) -> Resolution
        decreases run.len(),
    {
        if run.len() == 0 {
            Self::begin(start)
        } else {
            Self::of(start, run.drop_last()).add(run.last())
        }
    }

    /// Whether the run resolved without error.
    pub open spec fn accepted(self) -> bool {
        self.specifiers.errors.len() == 0
    }
}

/// The keywords of a run, without their locations.
pub open spec fn keywords_of(run: Seq<Locatable<Keyword>>) -> Seq<Keyword> {
    run.map_values(|keyword: Locatable<Keyword>| keyword.data)
}

/// All the keywords of a declaration's specifiers, the first one included.
pub open spec fn all_keywords(start: Keyword, run: Seq<Locatable<Keyword>>) -> Seq<Keyword> {
    seq![start] + keywords_of(run)
}

/// The storage class that a set of keywords names.
pub open spec fn named_storage_class(keys: Set<Keyword>) -> StorageClass {
    if keys.contains(Keyword::Extern) {
        StorageClass::Extern
    } else if keys.contains(Keyword::Static) {
        StorageClass::Static
    } else if keys.contains(Keyword::Register) {
        StorageClass::Register
    } else {
        StorageClass::Auto
    }
}

/// The qualifiers that a set of keywords names.
pub open spec fn named_qualifiers(keys: Set<Keyword>) -> Qualifiers {
    Qualifiers {
        c_const: keys.contains(Keyword::Const),
        volatile: keys.contains(Keyword::Volatile),
    }
}

/// The type that a set of keywords names: the most specific base type among
/// them, `int` if there is none, unsigned if `unsigned` is among them.
pub open spec fn named_type(keys: Set<Keyword>) -> SpecType {
    let signed = !keys.contains(Keyword::Unsigned);
    if keys.contains(Keyword::Double) {
        SpecType::Double
    } else if keys.contains(Keyword::Float) {
        SpecType::Float
    } else if keys.contains(Keyword::Void) {
        SpecType::Void
    } else if keys.contains(Keyword::Bool) {
        SpecType::Bool
    } else if keys.contains(Keyword::Char) {
        SpecType::Char(signed)
    } else if keys.contains(Keyword::Short) {
        SpecType::Short(signed)
    } else if keys.contains(Keyword::Long) {
        SpecType::Long(signed)
    } else {
        SpecType::Int(signed)
    }
}

/// Whether a set of keywords holds a storage class.
pub open spec fn names_storage_class(keys: Set<Keyword>) -> bool {
    ||| keys.contains(Keyword::Auto)
    ||| keys.contains(Keyword::Extern)
    ||| keys.contains(Keyword::Static)
    ||| keys.contains(Keyword::Register)
}

/// Whether a set of keywords holds a base type.
pub open spec fn names_base_type(keys: Set<Keyword>) -> bool {
    ||| keys.contains(Keyword::Void)
    ||| keys.contains(Keyword::Bool)
    ||| keys.contains(Keyword::Char)
    ||| keys.contains(Keyword::Short)
    ||| keys.contains(Keyword::Int)
    ||| keys.contains(Keyword::Long)
    ||| keys.contains(Keyword::Float)
    ||| keys.contains(Keyword::Double)
}

/// The keyword that names a storage class.
pub open spec fn storage_class_keyword(class: StorageClass) -> Keyword {
    match class {
        StorageClass::Auto => Keyword::Auto,
        StorageClass::Extern => Keyword::Extern,
        StorageClass::Static => Keyword::Static,
        StorageClass::Register => Keyword::Register,
    }
}

/// Whether the storage class held is the one the keywords seen name.
spec fn agrees_on_storage_class(r: Resolution) -> bool {
    match r.specifiers.storage_class {
        None => !names_storage_class(r.seen),
        Some(class) => {
            &&& r.seen.contains(Keyword::Auto) == (class == StorageClass::Auto)
            &&& r.seen.contains(Keyword::Extern) == (class == StorageClass::Extern)
            &&& r.seen.contains(Keyword::Static) == (class == StorageClass::Static)
            &&& r.seen.contains(Keyword::Register) == (class == StorageClass::Register)
        },
    }
}

/// Whether the qualifiers and the sign held are those the keywords seen name.
spec fn agrees_on_flags(r: Resolution) -> bool {
    &&& r.specifiers.qualifiers == named_qualifiers(r.seen)
    &&& r.specifiers.signed == if r.seen.contains(Keyword::Signed) {
        Some(true)
    } else if r.seen.contains(Keyword::Unsigned) {
        Some(false)
    } else {
        None
    }
    &&& !(r.seen.contains(Keyword::Signed) && r.seen.contains(Keyword::Unsigned))
}

/// Whether the base type held is the one the keywords seen name.
spec fn agrees_on_base_type(r: Resolution) -> bool {
    match r.specifiers.ctype {
        None => !names_base_type(r.seen),
        Some(base) => names_base_type(r.seen) && base.spec_with_sign(true) == named_type(
            r.seen.remove(Keyword::Unsigned),
        ),
    }
}

/// Whether what the specifiers hold is what the keywords seen name.
spec fn agrees(r: Resolution) -> bool {
    &&& agrees_on_storage_class(r)
    &&& agrees_on_flags(r)
    &&& agrees_on_base_type(r)
}

proof fn lemma_agrees_on_storage_class(before: Resolution, keyword: Locatable<Keyword>)
    requires
        agrees_on_storage_class(before),
        before.add(keyword).accepted(),
    ensures
        agrees_on_storage_class(before.add(keyword)),
{
    if !before.seen.contains(keyword.data) {
        match StorageClass::spec_try_from(keyword.data) {
            Ok(class) => {
                assert(keyword.data == storage_class_keyword(class));
            },
            Err(_) => {},
        }
    }
}

proof fn lemma_agrees_on_flags(before: Resolution, keyword: Locatable<Keyword>)
    requires
        agrees_on_flags(before),
        before.add(keyword).accepted(),
    ensures
        agrees_on_flags(before.add(keyword)),
{
}

#[verifier::rlimit(40)]
proof fn lemma_agrees_on_base_type(before: Resolution, keyword: Locatable<Keyword>)
    requires
        agrees_on_base_type(before),
        before.add(keyword).accepted(),
    ensures
        agrees_on_base_type(before.add(keyword)),
{
    let after = before.add(keyword);
    let keys = before.seen.remove(Keyword::Unsigned);
    if !before.seen.contains(keyword.data) {
        assert(after.seen.remove(Keyword::Unsigned) =~= if keyword.data == Keyword::Unsigned {
            keys
        } else {
            keys.insert(keyword.data)
        });
        match BaseType::spec_try_from(keyword.data) {
            Ok(base) => {},
            Err(_) => {
                assert(after.specifiers.ctype == before.specifiers.ctype);
            },
        }
    }
}

proof fn lemma_agrees(start: Keyword, run: Seq<Locatable<Keyword>>)
    requires
        Resolution::of(start, run).accepted(),
    ensures
        agrees(Resolution::of(start, run)),
    decreases run.len(),
{
    if run.len() == 0 {
        let r = Resolution::begin(start);
        assert(r.seen.remove(Keyword::Unsigned) =~= if start == Keyword::Unsigned {
            Set::empty()
        } else {
            set![start]
        });
    } else {
        let before = Resolution::of(start, run.drop_last());
        lemma_agrees(start, run.drop_last());
        lemma_agrees_on_storage_class(before, run.last());
        lemma_agrees_on_flags(before, run.last());
        lemma_agrees_on_base_type(before, run.last());
    }
}

/// The keywords seen are the first keyword and those of the run.
pub proof fn lemma_seen(start: Keyword, run: Seq<Locatable<Keyword>>)
    ensures
        Resolution::of(start, run).seen == all_keywords(start, run).to_set(),
    decreases run.len(),
{
    let all = all_keywords(start, run);
    if run.len() == 0 {
        assert(all =~= seq![start]);
        assert(all[0] == start);
        assert(all.to_set() =~= set![start]);
    } else {
        lemma_seen(start, run.drop_last());
        let shorter = all_keywords(start, run.drop_last());
        assert(all =~= shorter.push(run.last().data));
        shorter.lemma_push_to_set_commute(run.last().data);
        assert(Resolution::of(start, run).seen =~= shorter.to_set().insert(run.last().data));
    }
}

/// Specifiers that resolve without error resolve to what the set of their
/// keywords names, whatever their order and however often each is written.
pub proof fn lemma_outcome_by_keywords(start: Keyword, run: Seq<Locatable<Keyword>>)
    requires
        Resolution::of(start, run).accepted(),
    ensures
        Resolution::of(start, run).specifiers.outcome() == (
            named_storage_class(all_keywords(start, run).to_set()),
            named_qualifiers(all_keywords(start, run).to_set()),
            named_type(all_keywords(start, run).to_set()),
        ),
{
    lemma_agrees(start, run);
    lemma_seen(start, run);
    let r = Resolution::of(start, run);
    let keys = r.seen.remove(Keyword::Unsigned);
    assert(forall|k: Keyword| k != Keyword::Unsigned ==> keys.contains(k) == r.seen.contains(k));
}

/// Order independence: two runs of specifiers that are permutations of each
/// other, and that both resolve without error, resolve to the same storage
/// class, qualifiers and type.
pub proof fn lemma_order_independent(
    start1: Keyword,
    run1: Seq<Locatable<Keyword>>,
    start2: Keyword,
    run2: Seq<Locatable<Keyword>>,
)
    requires
        all_keywords(start1, run1).to_multiset() == all_keywords(start2, run2).to_multiset(),
        Resolution::of(start1, run1).accepted(),
        Resolution::of(start2, run2).accepted(),
    ensures
        Resolution::of(start1, run1).specifiers.outcome() == Resolution::of(
            start2,
            run2,
        ).specifiers.outcome(),
{
    let all1 = all_keywords(start1, run1);
    let all2 = all_keywords(start2, run2);
    all1.to_multiset_ensures();
    all2.to_multiset_ensures();
    assert forall|k: Keyword| all1.to_set().contains(k) == all2.to_set().contains(k) by {
        assert(all1.contains(k) <==> all1.to_multiset().count(k) > 0);
        assert(all2.contains(k) <==> all2.to_multiset().count(k) > 0);
    }
    assert(all1.to_set() =~= all2.to_set());
    lemma_outcome_by_keywords(start1, run1);
    lemma_outcome_by_keywords(start2, run2);
}

/// Repetition: a qualifier, a storage class or a sign that is written again
/// after an earlier occurrence changes nothing of what the specifiers
/// establish, errors included, and adds exactly one warning.
pub proof fn lemma_repetition(
    start: Keyword,
    run: Seq<Locatable<Keyword>>,
    at: int,
    again: Locatable<Keyword>,
)
    requires
        0 <= at <= run.len(),
        SpecSpecifiers::repeatable(again.data),
        all_keywords(start, run.take(at)).contains(again.data),
    ensures
        Resolution::of(start, run.insert(at, again)).specifiers == Resolution::of(
            start,
            run,
        ).specifiers,
        Resolution::of(start, run.insert(at, again)).seen == Resolution::of(start, run).seen,
        Resolution::of(start, run.insert(at, again)).warnings.len() == Resolution::of(
            start,
            run,
        ).warnings.len() + 1,
    decreases run.len() - at,
{
    let longer = run.insert(at, again);
    if at == run.len() {
        assert(run.take(at) =~= run);
        assert(longer.drop_last() =~= run);
        assert(longer.last() == again);
        lemma_seen(start, run);
    } else {
        let shorter = run.drop_last();
        assert(shorter.take(at) =~= run.take(at));
        lemma_repetition(start, shorter, at, again);
        assert(longer.drop_last() =~= shorter.insert(at, again));
        assert(longer.last() == run.last());
    }
}

/// Whether a set of keywords holds one of the two pairs that resolve in one
/// order only: `long` before `double`, and `int` before `_Bool`.
pub open spec fn order_sensitive(keys: Set<Keyword>) -> bool {
    ||| keys.contains(Keyword::Long) && keys.contains(Keyword::Double)
    ||| keys.contains(Keyword::Int) && keys.contains(Keyword::Bool)
}

/// One if the keyword occurs, zero if it does not.
pub open spec fn presence(keywords: Multiset<Keyword>, keyword: Keyword) -> nat {
    if keywords.count(keyword) > 0 {
        1
    } else {
        0
    }
}

/// How many of the two signs occur.
pub open spec fn signs(keywords: Multiset<Keyword>) -> nat {
    presence(keywords, Keyword::Signed) + presence(keywords, Keyword::Unsigned)
}

/// How many of the two floating types occur.
pub open spec fn floating_types(keywords: Multiset<Keyword>) -> nat {
    presence(keywords, Keyword::Float) + presence(keywords, Keyword::Double)
}

/// How many of the four storage classes occur.
pub open spec fn storage_classes(keywords: Multiset<Keyword>) -> nat {
    presence(keywords, Keyword::Auto) + presence(keywords, Keyword::Extern) + presence(
        keywords,
        Keyword::Static,
    ) + presence(keywords, Keyword::Register)
}

/// How many of the base types other than `int` occur.
pub open spec fn base_types_besides_int(keywords: Multiset<Keyword>) -> nat {
    presence(keywords, Keyword::Void) + presence(keywords, Keyword::Bool) + presence(
        keywords,
        Keyword::Char,
    ) + presence(keywords, Keyword::Short) + presence(keywords, Keyword::Long)
        + floating_types(keywords)
}

/// Whether keywords can stand together as the specifiers of one declaration,
/// whatever their order: at most one sign, and none beside a floating type;
/// at most one storage class; no base type twice but `long`; at most one
/// base type other than `int`, and `int` only beside `char`, `short` or
/// `long`.
pub open spec fn compatible(keywords: Multiset<Keyword>) -> bool {
    &&& signs(keywords) <= 1
    &&& signs(keywords) > 0 ==> floating_types(keywords) == 0
    &&& storage_classes(keywords) <= 1
    &&& keywords.count(Keyword::Void) <= 1
    &&& keywords.count(Keyword::Bool) <= 1
    &&& keywords.count(Keyword::Char) <= 1
    &&& keywords.count(Keyword::Short) <= 1
    &&& keywords.count(Keyword::Int) <= 1
    &&& keywords.count(Keyword::Float) <= 1
    &&& keywords.count(Keyword::Double) <= 1
    &&& base_types_besides_int(keywords) <= 1
    &&& presence(keywords, Keyword::Int) > 0 ==> presence(keywords, Keyword::Void) + presence(
        keywords,
        Keyword::Bool,
    ) + floating_types(keywords) == 0
}

/// Whether every keyword of a sequence may stand among the specifiers of a
/// declaration.
pub open spec fn all_specifiers(keywords: Seq<Keyword>) -> bool {
    forall|i: int| 0 <= i < keywords.len() ==> (#[trigger] keywords[i]).spec_is_decl_specifier()
}

proof fn lemma_count_push(keywords: Seq<Keyword>, keyword: Keyword)
    ensures
        forall|k: Keyword| #[trigger]
            keywords.push(keyword).to_multiset().count(k) == keywords.to_multiset().count(k) + if k
                == keyword {
                1nat
            } else {
                0nat
            },
{
    vstd::seq_lib::to_multiset_build(keywords, keyword);
    assert forall|k: Keyword| #[trigger]
        keywords.push(keyword).to_multiset().count(k) == keywords.to_multiset().count(k) + if k
            == keyword {
            1nat
        } else {
            0nat
        } by {
        if k == keyword {
            vstd::multiset::lemma_insert_increases_count_by_1(keywords.to_multiset(), keyword);
        } else {
            vstd::multiset::lemma_insert_other_elements_unchanged(
                keywords.to_multiset(),
                keyword,
                k,
            );
        }
    }
}

proof fn lemma_seen_counted(start: Keyword, run: Seq<Locatable<Keyword>>)
    ensures
        forall|k: Keyword|
            Resolution::of(start, run).seen.contains(k) <==> #[trigger] all_keywords(
                start,
                run,
            ).to_multiset().count(k) > 0,
{
    lemma_seen(start, run);
    all_keywords(start, run).to_multiset_ensures();
}

#[verifier::rlimit(40)]
proof fn lemma_compatible_step(
    before: Resolution,
    counted: Multiset<Keyword>,
    keyword: Locatable<Keyword>,
    all: Multiset<Keyword>,
)
    requires
        before.accepted(),
        agrees(before),
        keyword.data.spec_is_decl_specifier(),
        forall|k: Keyword| before.seen.contains(k) <==> #[trigger] counted.count(k) > 0,
        forall|k: Keyword| #[trigger]
            all.count(k) == counted.count(k) + if k == keyword.data {
                1nat
            } else {
                0nat
            },
        compatible(all),
    ensures
        before.add(keyword).accepted(),
{
    let k = keyword.data;
    let keys = before.seen.remove(Keyword::Unsigned);
    assert(forall|x: Keyword|
        x != Keyword::Unsigned ==> keys.contains(x) == before.seen.contains(x));
    assert(all.count(k) == counted.count(k) + 1);
}

/// Keywords that can stand together resolve without error, in the order in
/// which they are written.
pub proof fn lemma_compatible_accepted(start: Keyword, run: Seq<Locatable<Keyword>>)
    requires
        all_specifiers(all_keywords(start, run)),
        compatible(all_keywords(start, run).to_multiset()),
    ensures
        Resolution::of(start, run).accepted(),
    decreases run.len(),
{
    if run.len() > 0 {
        let shorter = run.drop_last();
        let all = all_keywords(start, run);
        let counted = all_keywords(start, shorter);
        assert(all =~= counted.push(run.last().data));
        lemma_count_push(counted, run.last().data);
        assert(all_specifiers(counted)) by {
            assert forall|i: int| 0 <= i < counted.len() implies (#[trigger] counted[
                i
            ]).spec_is_decl_specifier() by {
                assert(counted[i] == all[i]);
            }
        }
        assert(compatible(counted.to_multiset()));
        lemma_compatible_accepted(start, shorter);
        lemma_agrees(start, shorter);
        lemma_seen_counted(start, shorter);
        assert(all[all.len() - 1] == run.last().data);
        lemma_compatible_step(
            Resolution::of(start, shorter),
            counted.to_multiset(),
            run.last(),
            all.to_multiset(),
        );
    }
}

#[verifier::rlimit(40)]
proof fn lemma_accepted_step(
    before: Resolution,
    counted: Multiset<Keyword>,
    keyword: Locatable<Keyword>,
    all: Multiset<Keyword>,
)
    requires
        before.add(keyword).accepted(),
        agrees(before),
        compatible(counted),
        forall|k: Keyword| before.seen.contains(k) <==> #[trigger] counted.count(k) > 0,
        forall|k: Keyword| #[trigger]
            all.count(k) == counted.count(k) + if k == keyword.data {
                1nat
            } else {
                0nat
            },
        !order_sensitive(before.add(keyword).seen),
    ensures
        compatible(all),
{
    let k = keyword.data;
    let after = before.add(keyword);
    let keys = before.seen.remove(Keyword::Unsigned);
    assert(forall|x: Keyword|
        x != Keyword::Unsigned ==> keys.contains(x) == before.seen.contains(x));
    assert(after.seen.contains(k));
    assert(all.count(k) == counted.count(k) + 1);
}

/// Specifiers that resolve without error can stand together in any order,
/// unless they hold one of the two pairs that resolve in one order only.
pub proof fn lemma_accepted_compatible(start: Keyword, run: Seq<Locatable<Keyword>>)
    requires
        Resolution::of(start, run).accepted(),
        !order_sensitive(all_keywords(start, run).to_set()),
    ensures
        compatible(all_keywords(start, run).to_multiset()),
    decreases run.len(),
{
    let all = all_keywords(start, run);
    lemma_seen(start, run);
    if run.len() == 0 {
        assert(all =~= Seq::<Keyword>::empty().push(start));
        lemma_count_push(Seq::<Keyword>::empty(), start);
        let none = Seq::<Keyword>::empty();
        assert(forall|k: Keyword| #[trigger] none.to_multiset().count(k) == 0) by {
            none.to_multiset_ensures();
        }
    } else {
        let shorter = run.drop_last();
        let counted = all_keywords(start, shorter);
        assert(all =~= counted.push(run.last().data));
        lemma_count_push(counted, run.last().data);
        lemma_seen(start, shorter);
        assert(!order_sensitive(counted.to_set())) by {
            assert(forall|k: Keyword| counted.to_set().contains(k) ==> all.to_set().contains(k));
        }
        lemma_accepted_compatible(start, shorter);
        lemma_agrees(start, shorter);
        lemma_seen_counted(start, shorter);
        lemma_accepted_step(
            Resolution::of(start, shorter),
            counted.to_multiset(),
            run.last(),
            all.to_multiset(),
        );
    }
}

/// Order independence: specifiers that resolve without error resolve in
/// every other order too, and to the same storage class, qualifiers and
/// type, unless they hold `long` with `double` or `int` with `_Bool`.
pub proof fn lemma_any_order(
    start1: Keyword,
    run1: Seq<Locatable<Keyword>>,
    start2: Keyword,
    run2: Seq<Locatable<Keyword>>,
)
    requires
        all_keywords(start1, run1).to_multiset() == all_keywords(start2, run2).to_multiset(),
        all_specifiers(all_keywords(start1, run1)),
        Resolution::of(start1, run1).accepted(),
        !order_sensitive(all_keywords(start1, run1).to_set()),
    ensures
        Resolution::of(start2, run2).accepted(),
        Resolution::of(start1, run1).specifiers.outcome() == Resolution::of(
            start2,
            run2,
        ).specifiers.outcome(),
{
    let all1 = all_keywords(start1, run1);
    let all2 = all_keywords(start2, run2);
    lemma_accepted_compatible(start1, run1);
    all1.to_multiset_ensures();
    all2.to_multiset_ensures();
    assert(all_specifiers(all2)) by {
        assert forall|i: int| 0 <= i < all2.len() implies (#[trigger] all2[
            i
        ]).spec_is_decl_specifier() by {
            assert(all2.contains(all2[i]));
            assert(all2.to_multiset().count(all2[i]) > 0);
            assert(all1.contains(all2[i]));
            let j = choose|j: int| 0 <= j < all1.len() && all1[j] == all2[i];
            assert(all1[j].spec_is_decl_specifier());
        }
    }
    lemma_compatible_accepted(start2, run2);
    lemma_order_independent(start1, run1, start2, run2);
}

/// How often a keyword is written again after its first occurrence.
pub open spec fn repeats(keywords: Multiset<Keyword>, keyword: Keyword) -> nat {
    if keywords.count(keyword) > 0 {
        (keywords.count(keyword) - 1) as nat
    } else {
        0
    }
}

/// How often a qualifier, a storage class or a sign is written again after
/// its first occurrence.
pub open spec fn repetitions(keywords: Multiset<Keyword>) -> nat {
    repeats(keywords, Keyword::Const) + repeats(keywords, Keyword::Volatile) + repeats(
        keywords,
        Keyword::Signed,
    ) + repeats(keywords, Keyword::Unsigned) + repeats(keywords, Keyword::Auto) + repeats(
        keywords,
        Keyword::Extern,
    ) + repeats(keywords, Keyword::Static) + repeats(keywords, Keyword::Register)
}

proof fn lemma_repeats_step(
    counted: Multiset<Keyword>,
    added: Keyword,
    all: Multiset<Keyword>,
    keyword: Keyword,
)
    requires
        forall|k: Keyword| #[trigger]
            all.count(k) == counted.count(k) + if k == added {
                1nat
            } else {
                0nat
            },
    ensures
        repeats(all, keyword) == repeats(counted, keyword) + if keyword == added && counted.count(
            keyword,
        ) > 0 {
            1nat
        } else {
            0nat
        },
{
    assert(all.count(keyword) == counted.count(keyword) + if keyword == added {
        1nat
    } else {
        0nat
    });
}

proof fn lemma_repetitions_step(counted: Multiset<Keyword>, added: Keyword, all: Multiset<Keyword>)
    requires
        forall|k: Keyword| #[trigger]
            all.count(k) == counted.count(k) + if k == added {
                1nat
            } else {
                0nat
            },
    ensures
        repetitions(all) == repetitions(counted) + if SpecSpecifiers::repeatable(added)
            && counted.count(added) > 0 {
            1nat
        } else {
            0nat
        },
{
    lemma_repeats_step(counted, added, all, Keyword::Const);
    lemma_repeats_step(counted, added, all, Keyword::Volatile);
    lemma_repeats_step(counted, added, all, Keyword::Signed);
    lemma_repeats_step(counted, added, all, Keyword::Unsigned);
    lemma_repeats_step(counted, added, all, Keyword::Auto);
    lemma_repeats_step(counted, added, all, Keyword::Extern);
    lemma_repeats_step(counted, added, all, Keyword::Static);
    lemma_repeats_step(counted, added, all, Keyword::Register);
}

/// Repetition, counted: specifiers draw exactly one warning for each time
/// that a qualifier, a storage class or a sign is written again, wherever it
/// stands and whatever else is written.
pub proof fn lemma_warnings_counted(start: Keyword, run: Seq<Locatable<Keyword>>)
    ensures
        Resolution::of(start, run).warnings.len() == repetitions(
            all_keywords(start, run).to_multiset(),
        ),
    decreases run.len(),
{
    let all = all_keywords(start, run);
    if run.len() == 0 {
        let none = Seq::<Keyword>::empty();
        assert(all =~= none.push(start));
        lemma_count_push(none, start);
        assert(forall|k: Keyword| #[trigger] none.to_multiset().count(k) == 0) by {
            none.to_multiset_ensures();
        }
        lemma_repetitions_step(none.to_multiset(), start, all.to_multiset());
        assert(repetitions(none.to_multiset()) == 0);
    } else {
        let shorter = run.drop_last();
        let counted = all_keywords(start, shorter);
        let before = Resolution::of(start, shorter);
        let added = run.last().data;
        assert(all =~= counted.push(added));
        lemma_count_push(counted, added);
        lemma_warnings_counted(start, shorter);
        lemma_repetitions_step(counted.to_multiset(), added, all.to_multiset());
        assert(before.seen.contains(added) <==> counted.to_multiset().count(added) > 0) by {
            lemma_seen_counted(start, shorter);
        }
        assert(Resolution::of(start, run).warnings.len() == before.warnings.len() + if before.warns(
            added,
        ) {
            1nat
        } else {
            0nat
        });
    }
}

/// The warning for a keyword that is written again.
pub open spec fn duplicate_warning(keyword: Locatable<Keyword>) -> Locatable<Seq<char>> {
    Locatable { data: duplicate_specifier_text(keyword.data), location: keyword.location }
}

/// Whether the keyword at the place `at` of a run is a qualifier, a storage
/// class or a sign that occurs before that place.
pub open spec fn repeats_earlier(start: Keyword, run: Seq<Locatable<Keyword>>, at: int) -> bool {
    SpecSpecifiers::repeatable(run[at].data) && all_keywords(start, run.take(at)).contains(
        run[at].data,
    )
}

/// One warning for each keyword of a run that repeats an earlier one, in the
/// order of the run: the warning names the keyword and stands at its place.
pub open spec fn repetition_warnings(start: Keyword, run: Seq<Locatable<Keyword>>) -> Seq<
    Locatable<Seq<char>>,
>
    decreases run.len(),
{
    if run.len() == 0 {
        Seq::empty()
    } else {
        let earlier = repetition_warnings(start, run.drop_last());
        if repeats_earlier(start, run, run.len() - 1) {
            earlier.push(duplicate_warning(run.last()))
        } else {
            earlier
        }
    }
}

/// Repetition, worded and placed: the warnings of a run of specifiers are
/// one for each keyword that repeats an earlier qualifier, storage class or
/// sign, in the order of the run, each naming that keyword at its place.
pub proof fn lemma_warnings_placed(start: Keyword, run: Seq<Locatable<Keyword>>)
    ensures
        Resolution::of(start, run).warnings == repetition_warnings(start, run),
    decreases run.len(),
{
    if run.len() > 0 {
        let shorter = run.drop_last();
        lemma_warnings_placed(start, shorter);
        lemma_seen(start, shorter);
        assert(run.take(run.len() - 1) =~= shorter);
        assert(all_keywords(start, shorter).to_set().contains(run.last().data) == all_keywords(
            start,
            shorter,
        ).contains(run.last().data));
    }
}

/// Whether two resolutions have seen and established the same, the first
/// with `more` warnings more than the second.
pub open spec fn same_but_warnings(a: Resolution, b: Resolution, more: int) -> bool {
    &&& a.seen == b.seen
    &&& a.specifiers == b.specifiers
    &&& a.warnings.len() == b.warnings.len() + more
}

proof fn lemma_same_after_add(a: Resolution, b: Resolution, more: int, keyword: Locatable<Keyword>)
    requires
        same_but_warnings(a, b, more),
    ensures
        same_but_warnings(a.add(keyword), b.add(keyword), more),
{
}

proof fn lemma_accepted_before(start: Keyword, run: Seq<Locatable<Keyword>>)
    requires
        run.len() > 0,
        Resolution::of(start, run).accepted(),
    ensures
        Resolution::of(start, run.drop_last()).accepted(),
{
}

/// Where a qualifier, a storage class or a sign is met for the first time
/// without error, its place does not matter.
proof fn lemma_place_irrelevant(r: Resolution, first: Locatable<Keyword>, other: Locatable<Keyword>)
    requires
        SpecSpecifiers::repeatable(first.data),
        first.data == other.data,
        !r.seen.contains(first.data),
        r.add(first).accepted(),
    ensures
        same_but_warnings(r.add(other), r.add(first), 0),
{
}

/// A qualifier, a storage class or a sign that is met for the first time
/// without error after another keyword could as well be met before it.
#[verifier::rlimit(40)]
proof fn lemma_first_commutes(r: Resolution, other: Locatable<Keyword>, first: Locatable<Keyword>)
    requires
        SpecSpecifiers::repeatable(first.data),
        !r.seen.contains(first.data),
        other.data != first.data,
        r.add(other).add(first).accepted(),
    ensures
        same_but_warnings(r.add(first).add(other), r.add(other).add(first), 0),
{
    assert(r.seen.insert(first.data).insert(other.data) =~= r.seen.insert(other.data).insert(
        first.data,
    ));
    assert(r.add(other).accepted());
}

/// A qualifier, a storage class or a sign that does not occur in a run,
/// and after which the run resolves without error, could as well stand
/// anywhere in the run.
#[verifier::rlimit(40)]
proof fn lemma_first_anywhere(
    start: Keyword,
    run: Seq<Locatable<Keyword>>,
    at: int,
    first: Locatable<Keyword>,
)
    requires
        0 <= at <= run.len(),
        SpecSpecifiers::repeatable(first.data),
        !all_keywords(start, run).contains(first.data),
        Resolution::of(start, run).add(first).accepted(),
    ensures
        same_but_warnings(
            Resolution::of(start, run.insert(at, first)),
            Resolution::of(start, run).add(first),
            0,
        ),
    decreases run.len() - at,
{
    let longer = run.insert(at, first);
    lemma_seen(start, run);
    if at == run.len() {
        assert(longer.drop_last() =~= run);
        assert(longer.last() == first);
    } else {
        let shorter = run.drop_last();
        let last = run.last();
        let before = Resolution::of(start, shorter);
        lemma_seen(start, shorter);
        assert(all_keywords(start, run) =~= all_keywords(start, shorter).push(last.data));
        assert(all_keywords(start, run).contains(last.data)) by {
            assert(all_keywords(start, run)[all_keywords(start, run).len() - 1] == last.data);
        }
        assert(!all_keywords(start, shorter).contains(first.data)) by {
            if all_keywords(start, shorter).contains(first.data) {
                let i = choose|i: int|
                    0 <= i < all_keywords(start, shorter).len() && all_keywords(start, shorter)[i]
                        == first.data;
                assert(all_keywords(start, run)[i] == first.data);
            }
        }
        assert(!before.seen.contains(first.data));
        lemma_first_commutes(before, last, first);
        lemma_first_anywhere(start, shorter, at, first);
        assert(longer.drop_last() =~= shorter.insert(at, first));
        assert(longer.last() == last);
        lemma_same_after_add(
            Resolution::of(start, shorter.insert(at, first)),
            before.add(first),
            0,
            last,
        );
    }
}

/// Repetition, anywhere: in specifiers that resolve without error, a
/// qualifier, a storage class or a sign that they hold may be written once
/// more at any place after the first keyword; they resolve as before, with
/// exactly one warning more.
#[verifier::rlimit(40)]
pub proof fn lemma_repetition_anywhere(
    start: Keyword,
    run: Seq<Locatable<Keyword>>,
    at: int,
    again: Locatable<Keyword>,
)
    requires
        0 <= at <= run.len(),
        SpecSpecifiers::repeatable(again.data),
        all_keywords(start, run).contains(again.data),
        Resolution::of(start, run).accepted(),
    ensures
        same_but_warnings(
            Resolution::of(start, run.insert(at, again)),
            Resolution::of(start, run),
            1,
        ),
    decreases run.len() - at,
{
    let longer = run.insert(at, again);
    if all_keywords(start, run.take(at)).contains(again.data) {
        lemma_repetition(start, run, at, again);
    } else {
        assert(at < run.len()) by {
            if at == run.len() {
                assert(run.take(at) =~= run);
            }
        }
        let shorter = run.drop_last();
        let last = run.last();
        let before = Resolution::of(start, shorter);
        lemma_accepted_before(start, run);
        lemma_seen(start, shorter);
        assert(all_keywords(start, run) =~= all_keywords(start, shorter).push(last.data));
        assert(longer.drop_last() =~= shorter.insert(at, again));
        assert(longer.last() == last);
        if all_keywords(start, shorter).contains(again.data) {
            lemma_repetition_anywhere(start, shorter, at, again);
            lemma_same_after_add(
                Resolution::of(start, shorter.insert(at, again)),
                before,
                1,
                last,
            );
        } else {
            assert(last.data == again.data) by {
                let all = all_keywords(start, run);
                let i = choose|i: int| 0 <= i < all.len() && all[i] == again.data;
                if i < all.len() - 1 {
                    assert(all_keywords(start, shorter)[i] == again.data);
                }
            }
            assert(!before.seen.contains(again.data));
            lemma_place_irrelevant(before, last, again);
            lemma_first_anywhere(start, shorter, at, again);
            lemma_same_after_add(
                Resolution::of(start, shorter.insert(at, again)),
                before.add(again),
                0,
                last,
            );
        }
    }
}

/// A run with further keywords written into it, one after another: each is
/// given with the place at which it is written into what stands by then.
pub open spec fn with_repetitions(
    run: Seq<Locatable<Keyword>>,
    extra: Seq<(int, Locatable<Keyword>)>,
) -> Seq<Locatable<Keyword>>
    decreases extra.len(),
{
    if extra.len() == 0 {
        run
    } else {
        with_repetitions(run, extra.drop_last()).insert(extra.last().0, extra.last().1)
    }
}

/// Whether each of the further keywords is a qualifier, a storage class or
/// a sign that the specifiers hold already, written at a place that exists.
pub open spec fn are_repetitions(
    start: Keyword,
    run: Seq<Locatable<Keyword>>,
    extra: Seq<(int, Locatable<Keyword>)>,
) -> bool {
    forall|i: int|
        0 <= i < extra.len() ==> {
            &&& 0 <= (#[trigger] extra[i]).0 <= run.len() + i
            &&& SpecSpecifiers::repeatable(extra[i].1.data)
            &&& all_keywords(start, run).contains(extra[i].1.data)
        }
}

/// Idempotence: specifiers that resolve without error resolve as before,
/// again without error, however many of their qualifiers, storage classes
/// and signs are written once more and wherever after the first keyword;
/// there is exactly one warning more for each, and every warning names the
/// repeated keyword at its place.
pub proof fn lemma_repetitions(
    start: Keyword,
    run: Seq<Locatable<Keyword>>,
    extra: Seq<(int, Locatable<Keyword>)>,
)
    requires
        Resolution::of(start, run).accepted(),
        are_repetitions(start, run, extra),
    ensures
        with_repetitions(run, extra).len() == run.len() + extra.len(),
        same_but_warnings(
            Resolution::of(start, with_repetitions(run, extra)),
            Resolution::of(start, run),
            extra.len() as int,
        ),
        Resolution::of(start, with_repetitions(run, extra)).warnings == repetition_warnings(
            start,
            with_repetitions(run, extra),
        ),
    decreases extra.len(),
{
    lemma_warnings_placed(start, with_repetitions(run, extra));
    if extra.len() > 0 {
        let fewer = extra.drop_last();
        let shorter = with_repetitions(run, fewer);
        let (at, again) = extra.last();
        assert(are_repetitions(start, run, fewer)) by {
            assert forall|i: int| 0 <= i < fewer.len() implies {
                &&& 0 <= (#[trigger] fewer[i]).0 <= run.len() + i
                &&& SpecSpecifiers::repeatable(fewer[i].1.data)
                &&& all_keywords(start, run).contains(fewer[i].1.data)
            } by {
                assert(fewer[i] == extra[i]);
            }
        }
        lemma_repetitions(start, run, fewer);
        assert(extra[extra.len() - 1] == (at, again));
        lemma_seen(start, run);
        lemma_seen(start, shorter);
        assert(all_keywords(start, shorter).contains(again.data)) by {
            assert(all_keywords(start, run).to_set().contains(again.data));
            assert(all_keywords(start, shorter).to_set().contains(again.data));
        }
        lemma_repetition_anywhere(start, shorter, at, again);
    }
}

proof fn lemma_same_after_run(
    start_a: Keyword,
    a: Seq<Locatable<Keyword>>,
    start_b: Keyword,
    b: Seq<Locatable<Keyword>>,
    more: int,
    then: Seq<Locatable<Keyword>>,
)
    requires
        same_but_warnings(Resolution::of(start_a, a), Resolution::of(start_b, b), more),
    ensures
        same_but_warnings(
            Resolution::of(start_a, a + then),
            Resolution::of(start_b, b + then),
            more,
        ),
    decreases then.len(),
{
    if then.len() == 0 {
        assert(a + then =~= a);
        assert(b + then =~= b);
    } else {
        let shorter = then.drop_last();
        lemma_same_after_run(start_a, a, start_b, b, more, shorter);
        assert((a + then).drop_last() =~= a + shorter);
        assert((b + then).drop_last() =~= b + shorter);
        assert((a + then).last() == then.last());
        assert((b + then).last() == then.last());
        lemma_same_after_add(
            Resolution::of(start_a, a + shorter),
            Resolution::of(start_b, b + shorter),
            more,
            then.last(),
        );
    }
}

proof fn lemma_accepted_so_far(
    start: Keyword,
    run: Seq<Locatable<Keyword>>,
    then: Seq<Locatable<Keyword>>,
)
    requires
        Resolution::of(start, run + then).accepted(),
    ensures
        Resolution::of(start, run).accepted(),
    decreases then.len(),
{
    if then.len() == 0 {
        assert(run + then =~= run);
    } else {
        assert((run + then).drop_last() =~= run + then.drop_last());
        lemma_accepted_before(start, run + then);
        lemma_accepted_so_far(start, run, then.drop_last());
    }
}

/// A qualifier, a storage class or a sign that follows the first keyword
/// without error could as well stand before it.
#[verifier::rlimit(40)]
proof fn lemma_first_exchanged(start: Locatable<Keyword>, again: Locatable<Keyword>)
    requires
        SpecSpecifiers::repeatable(again.data),
        Resolution::begin(start.data).add(again).accepted(),
    ensures
        same_but_warnings(
            Resolution::begin(again.data).add(start),
            Resolution::begin(start.data).add(again),
            0,
        ),
{
    assert(set![again.data].insert(start.data) =~= set![start.data].insert(again.data));
}

/// Repetition, in front: in specifiers that resolve without error, a
/// qualifier, a storage class or a sign that they hold may be written once
/// more before the first keyword; they resolve as before, with exactly one
/// warning more.
pub proof fn lemma_repetition_in_front(
    start: Locatable<Keyword>,
    run: Seq<Locatable<Keyword>>,
    again: Locatable<Keyword>,
)
    requires
        SpecSpecifiers::repeatable(again.data),
        all_keywords(start.data, run).contains(again.data),
        Resolution::of(start.data, run).accepted(),
    ensures
        same_but_warnings(
            Resolution::of(again.data, seq![start] + run),
            Resolution::of(start.data, run),
            1,
        ),
{
    lemma_repetition_anywhere(start.data, run, 0, again);
    assert(run.insert(0, again) =~= seq![again] + run);
    lemma_accepted_so_far(start.data, seq![again], run);
    assert(seq![again].drop_last() =~= Seq::<Locatable<Keyword>>::empty());
    assert(seq![start].drop_last() =~= Seq::<Locatable<Keyword>>::empty());
    assert(Resolution::of(start.data, seq![again]) == Resolution::begin(start.data).add(again)) by {
        reveal_with_fuel(Resolution::of, 2);
        assert(seq![again].last() == again);
    }
    assert(Resolution::of(again.data, seq![start]) == Resolution::begin(again.data).add(start)) by {
        reveal_with_fuel(Resolution::of, 2);
        assert(seq![start].last() == start);
    }
    lemma_first_exchanged(start, again);
    lemma_same_after_run(again.data, seq![start], start.data, seq![again], 0, run);
}

} // verus!
