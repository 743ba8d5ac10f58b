use vstd::prelude::*;

use crate::text::text_eq;

verus! {

/// A stored value, as plain values. A float is kept as the text it was given in.
pub enum ArgValue {
    Text(Seq<char>),
    Int(i32),
    Decimal(Seq<char>),
    Nothing,
}

/// The value an argument was given. `Float` holds the decimal text of the
/// value, which is checked to be one that `str::parse::<f32>` accepts.
#[derive(Debug)]
pub enum CmdArgumentValue {
    String(String),
    Number(i32),
    Float(String),
    NoValue,
}

impl View for CmdArgumentValue {
    type V = ArgValue;

    open spec fn view(&self) -> ArgValue {
        match self {
            CmdArgumentValue::String(s) => ArgValue::Text(s@),
            CmdArgumentValue::Number(n) => ArgValue::Int(*n),
            CmdArgumentValue::Float(s) => ArgValue::Decimal(s@),
            CmdArgumentValue::NoValue => ArgValue::Nothing,
        }
    }
}

/// A recognised argument, under the canonical name of its option.
#[derive(Debug)]
pub struct CmdArgument {
    pub option: String,
    pub value: CmdArgumentValue,
}

impl View for CmdArgument {
    type V = (Seq<char>, ArgValue);

    open spec fn view(&self) -> (Seq<char>, ArgValue) {
        (self.option@, self.value@)
    }
}

impl CmdArgument {
    /// The canonical name the argument is stored under.
    pub fn option(&self) -> (r: &String)
        ensures
            r@ == self@.0,
    {
        &self.option
    }

    /// The value the argument was given.
    pub fn value(&self) -> (r: &CmdArgumentValue)
        ensures
            r@ == self@.1,
    {
        &self.value
    }
}

pub open spec fn store_view(v: Seq<CmdArgument>) -> Seq<(Seq<char>, ArgValue)> {
    v.map_values(|a: CmdArgument| a@)
}

/// No two entries share a name.
pub open spec fn keys_distinct(s: Seq<(Seq<char>, ArgValue)>) -> bool {
    forall|i: int, j: int| 0 <= i < j < s.len() ==> (#[trigger] s[i]).0 != (#[trigger] s[j]).0
}

/// The value stored under `k`.
pub open spec fn store_get(s: Seq<(Seq<char>, ArgValue)>, k: Seq<char>) -> Option<ArgValue>
    decreases s.len(),
{
    if s.len() == 0 {
        None
    } else if s[0].0 == k {
        Some(s[0].1)
    } else {
        store_get(s.drop_first(), k)
    }
}

/// `s` with `v` stored under `k`: the entry for `k` is replaced in place, or a
/// new one is added at the end.
pub open spec fn store_put(s: Seq<(Seq<char>, ArgValue)>, k: Seq<char>, v: ArgValue) -> Seq<
    (Seq<char>, ArgValue),
>
    decreases s.len(),
{
    if s.len() == 0 {
        seq![(k, v)]
    } else if s[0].0 == k {
        seq![(k, v)] + s.drop_first()
    } else {
        seq![s[0]] + store_put(s.drop_first(), k, v)
    }
}

pub proof fn lemma_store_put_at(s: Seq<(Seq<char>, ArgValue)>, k: Seq<char>, v: ArgValue, i: int)
    requires
        0 <= i <= s.len(),
        forall|j: int| 0 <= j < i ==> (#[trigger] s[j]).0 != k,
        i < s.len() ==> s[i].0 == k,
    ensures
        store_put(s, k, v) == if i < s.len() {
            s.update(i, (k, v))
        } else {
            s.push((k, v))
        },
    decreases i,
{
    if i == 0 {
        if s.len() == 0 {
            assert(seq![(k, v)] =~= s.push((k, v)));
        } else {
            assert(seq![(k, v)] + s.drop_first() =~= s.update(0, (k, v)));
        }
    } else {
        let t = s.drop_first();
        assert forall|j: int| 0 <= j < i - 1 implies (#[trigger] t[j]).0 != k by {
            assert(t[j] == s[j + 1]);
        }
        lemma_store_put_at(t, k, v, i - 1);
        if i < s.len() {
            assert(seq![s[0]] + t.update(i - 1, (k, v)) =~= s.update(i, (k, v)));
        } else {
            assert(seq![s[0]] + t.push((k, v)) =~= s.push((k, v)));
        }
    }
}

/// Stores `a` under its name, replacing the entry of that name if there is one.
pub fn put_argument(v: &mut Vec<CmdArgument>, a: CmdArgument)
    requires
        keys_distinct(store_view(old(v)@)),
    ensures
        store_view(final(v)@) == store_put(store_view(old(v)@), a@.0, a@.1),
        keys_distinct(store_view(final(v)@)),
{
    let n = v.len();
    let ghost s = store_view(v@);
    let ghost av = a@;
    let mut i: usize = 0;
    while i < n
        invariant
            i <= n,
            n == v@.len(),
            s == store_view(v@),
            av == a@,
            forall|j: int| 0 <= j < i ==> (#[trigger] s[j]).0 != av.0,
        ensures
            i <= n,
            forall|j: int| 0 <= j < i ==> (#[trigger] s[j]).0 != av.0,
            i < n ==> s[i as int].0 == av.0,
        decreases n - i,
    {
        if text_eq(v[i].option.as_str(), a.option.as_str()) {
            break;
        }
        i += 1;
    }
    proof {
        lemma_store_put_at(s, av.0, av.1, i as int);
    }
    if i < n {
        v.set(i, a);
        assert(store_view(v@) =~= s.update(i as int, av));
    } else {
        v.push(a);
        assert(store_view(v@) =~= s.push(av));
    }
}

/// The index of the entry stored under `k`.
pub fn find_argument(v: &Vec<CmdArgument>, k: &str) -> (r: Option<usize>)
    ensures
        match r {
            Some(i) => i < v@.len() && store_get(store_view(v@), k@) == Some(v@[i as int]@.1),
            None => store_get(store_view(v@), k@) is None,
        },
{
    let n = v.len();
    let ghost s = store_view(v@);
    let mut i: usize = 0;
    assert(s.subrange(0, n as int) =~= s);
    while i < n
        invariant
            i <= n,
            n == v@.len(),
            s == store_view(v@),
            store_get(s, k@) == store_get(s.subrange(i as int, n as int), k@),
        decreases n - i,
    {
        assert(s.subrange(i as int, n as int)[0] == s[i as int]);
        if text_eq(v[i].option.as_str(), k) {
            return Some(i);
        }
        assert(s.subrange(i as int, n as int).drop_first() =~= s.subrange(i + 1, n as int));
        i += 1;
    }
    None
}

} // verus!
