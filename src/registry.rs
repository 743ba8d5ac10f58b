use vstd::prelude::*;

use crate::text::{lemma_lt_asymmetric, lemma_lt_transitive, seq_lt, text_eq, text_lt};
use crate::CmdOptionValueType;

verus! {

/// What a registered option is, as plain values.
pub struct OptionModel {
    pub short: Seq<char>,
    pub long: Seq<char>,
    pub description: Seq<char>,
    pub value_type: CmdOptionValueType,
}

/// A registered option: its two flag forms, its description, and the kind of
/// value it takes.
#[derive(Debug)]
pub struct CmdLineOption {
    pub shortform: String,
    pub longform: String,
    pub description: String,
    pub value_type: CmdOptionValueType,
}

impl View for CmdLineOption {
    type V = OptionModel;

    open spec fn view(&self) -> OptionModel {
        OptionModel {
            short: self.shortform@,
            long: self.longform@,
            description: self.description@,
            value_type: self.value_type,
        }
    }
}

pub open spec fn options_view(v: Seq<CmdLineOption>) -> Seq<OptionModel> {
    v.map_values(|o: CmdLineOption| o@)
}

/// Ascending by short form; equal short forms may stand in any order.
pub open spec fn sorted_by_short(s: Seq<OptionModel>) -> bool {
    forall|i: int, j: int| 0 <= i < j < s.len() ==> !seq_lt(#[trigger] s[j].short, #[trigger] s[i].short)
}

/// `o` placed into `s` after every option whose short form does not sort after its own.
pub open spec fn sorted_insert(s: Seq<OptionModel>, o: OptionModel) -> Seq<OptionModel>
    decreases s.len(),
{
    if s.len() == 0 {
        seq![o]
    } else if seq_lt(o.short, s[0].short) {
        seq![o] + s
    } else {
        seq![s[0]] + sorted_insert(s.drop_first(), o)
    }
}

/// The registry that results from adding the options of `adds`, in that order,
/// to an empty one.
pub open spec fn registry_of(adds: Seq<OptionModel>) -> Seq<OptionModel>
    decreases adds.len(),
{
    if adds.len() == 0 {
        Seq::empty()
    } else {
        sorted_insert(registry_of(adds.drop_last()), adds.last())
    }
}

/// Whether the flag text `tok` names `o`, by its long form or by its short form.
pub open spec fn option_matches(o: OptionModel, tok: Seq<char>, is_longform: bool) -> bool {
    if is_longform {
        o.long == tok
    } else {
        o.short == tok
    }
}

/// The first option of `s` that `tok` names.
pub open spec fn first_match(s: Seq<OptionModel>, tok: Seq<char>, is_longform: bool) -> Option<OptionModel>
    decreases s.len(),
{
    if s.len() == 0 {
        None
    } else if option_matches(s[0], tok, is_longform) {
        Some(s[0])
    } else {
        first_match(s.drop_first(), tok, is_longform)
    }
}

pub proof fn lemma_sorted_insert_at(s: Seq<OptionModel>, o: OptionModel, i: int)
    requires
        0 <= i <= s.len(),
        forall|j: int| 0 <= j < i ==> !seq_lt(o.short, #[trigger] s[j].short),
        i < s.len() ==> seq_lt(o.short, s[i].short),
    ensures
        sorted_insert(s, o) == s.insert(i, o),
    decreases i,
{
    if i == 0 {
        if s.len() == 0 {
            assert(seq![o] =~= s.insert(0, o));
        } else {
            assert(seq![o] + s =~= s.insert(0, o));
        }
    } else {
        assert(!seq_lt(o.short, s[0].short));
        let t = s.drop_first();
        assert forall|j: int| 0 <= j < i - 1 implies !seq_lt(o.short, #[trigger] t[j].short) by {
            assert(t[j] == s[j + 1]);
        }
        lemma_sorted_insert_at(t, o, i - 1);
        assert(seq![s[0]] + t.insert(i - 1, o) =~= s.insert(i, o));
    }
}

pub proof fn lemma_sorted_insert_len(s: Seq<OptionModel>, o: OptionModel)
    ensures
        sorted_insert(s, o).len() == s.len() + 1,
    decreases s.len(),
{
    if s.len() > 0 && !seq_lt(o.short, s[0].short) {
        lemma_sorted_insert_len(s.drop_first(), o);
    }
}

pub proof fn lemma_sorted_insert_elements(s: Seq<OptionModel>, o: OptionModel)
    ensures
        forall|x: OptionModel| #[trigger] sorted_insert(s, o).contains(x) ==> x == o || s.contains(x),
    decreases s.len(),
{
    if s.len() > 0 && !seq_lt(o.short, s[0].short) {
        let t = s.drop_first();
        let r = sorted_insert(t, o);
        lemma_sorted_insert_elements(t, o);
        assert forall|x: OptionModel| #[trigger] sorted_insert(s, o).contains(x) implies x == o
            || s.contains(x) by {
            let k = choose|k: int| 0 <= k < sorted_insert(s, o).len() && sorted_insert(s, o)[k] == x;
            if k > 0 {
                assert(r[k - 1] == x);
                assert(r.contains(x));
                if t.contains(x) {
                    let m = choose|m: int| 0 <= m < t.len() && t[m] == x;
                    assert(s[m + 1] == x);
                }
            }
        }
    }
}

pub proof fn lemma_sorted_insert_sorted(s: Seq<OptionModel>, o: OptionModel)
    requires
        sorted_by_short(s),
    ensures
        sorted_by_short(sorted_insert(s, o)),
    decreases s.len(),
{
    let r = sorted_insert(s, o);
    if s.len() == 0 {
    } else if seq_lt(o.short, s[0].short) {
        assert forall|i: int, j: int| 0 <= i < j < r.len() implies !seq_lt(
            #[trigger] r[j].short,
            #[trigger] r[i].short,
        ) by {
            if i == 0 {
                if j == 1 {
                    lemma_lt_asymmetric(o.short, s[0].short);
                } else if seq_lt(s[j - 1].short, o.short) {
                    lemma_lt_transitive(s[j - 1].short, o.short, s[0].short);
                }
            }
        }
    } else {
        let t = s.drop_first();
        let rt = sorted_insert(t, o);
        assert(sorted_by_short(t)) by {
            assert forall|i: int, j: int| 0 <= i < j < t.len() implies !seq_lt(
                #[trigger] t[j].short,
                #[trigger] t[i].short,
            ) by {
                assert(t[i] == s[i + 1] && t[j] == s[j + 1]);
            }
        }
        lemma_sorted_insert_sorted(t, o);
        lemma_sorted_insert_elements(t, o);
        assert forall|i: int, j: int| 0 <= i < j < r.len() implies !seq_lt(
            #[trigger] r[j].short,
            #[trigger] r[i].short,
        ) by {
            if i == 0 {
                let x = rt[j - 1];
                assert(rt.contains(x));
                if x != o {
                    let m = choose|m: int| 0 <= m < t.len() && t[m] == x;
                    assert(s[m + 1] == x);
                }
            } else {
                assert(r[i] == rt[i - 1] && r[j] == rt[j - 1]);
            }
        }
    }
}

/// Inserts `o` into `v` at the place `sorted_insert` gives it.
pub fn insert_sorted(v: &mut Vec<CmdLineOption>, o: CmdLineOption)
    ensures
        options_view(final(v)@) == sorted_insert(options_view(old(v)@), o@),
{
    let n = v.len();
    let ghost s = options_view(v@);
    let mut i: usize = 0;
    while i < n
        invariant
            i <= n,
            n == v@.len(),
            s == options_view(v@),
            forall|j: int| 0 <= j < i ==> !seq_lt(o@.short, #[trigger] s[j].short),
        ensures
            i <= n,
            forall|j: int| 0 <= j < i ==> !seq_lt(o@.short, #[trigger] s[j].short),
            i < n ==> seq_lt(o@.short, s[i as int].short),
        decreases n - i,
    {
        if text_lt(o.shortform.as_str(), v[i].shortform.as_str()) {
            break;
        }
        i += 1;
    }
    proof {
        lemma_sorted_insert_at(s, o@, i as int);
    }
    let ghost ov = o@;
    v.insert(i, o);
    assert(options_view(v@) =~= s.insert(i as int, ov));
}

/// The index of the first option of `v` that `tok` names.
pub fn find_option(v: &Vec<CmdLineOption>, tok: &str, is_longform: bool) -> (r: Option<usize>)
    ensures
        match r {
            Some(i) => i < v@.len() && first_match(options_view(v@), tok@, is_longform) == Some(
                v@[i as int]@,
            ),
            None => first_match(options_view(v@), tok@, is_longform) is None,
        },
{
    let n = v.len();
    let ghost s = options_view(v@);
    let mut i: usize = 0;
    assert(s.subrange(0, n as int) =~= s);
    while i < n
        invariant
            i <= n,
            n == v@.len(),
            s == options_view(v@),
            first_match(s, tok@, is_longform) == first_match(s.subrange(i as int, n as int), tok@, is_longform),
        decreases n - i,
    {
        let o = &v[i];
        let hit = if is_longform {
            text_eq(o.longform.as_str(), tok)
        } else {
            text_eq(o.shortform.as_str(), tok)
        };
        assert(s.subrange(i as int, n as int)[0] == s[i as int]);
        if hit {
            return Some(i);
        }
        assert(s.subrange(i as int, n as int).drop_first() =~= s.subrange(i + 1, n as int));
        i += 1;
    }
    None
}

} // verus!
