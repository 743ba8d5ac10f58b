use vstd::prelude::*;

use crate::commander::{
    coerce, decimal_of, exec_key, flag_text, help_header, help_line, help_lines, help_text, is_long_flag,
    is_short_flag, lookup, parse_tokens, type_tag, unsupported_line, CommanderModel,
};
use crate::registry::{
    first_match, lemma_sorted_insert_len, lemma_sorted_insert_sorted, option_matches, registry_of,
    sorted_by_short, OptionModel,
};
use crate::store::{store_get, store_put, ArgValue};
use crate::CmdOptionValueType;

verus! {

/// Every added option is counted, duplicates included: a registry built by
/// `adds.len()` additions holds `adds.len()` options.
pub proof fn law_count_of_additions(adds: Seq<OptionModel>)
    ensures
        registry_of(adds).len() == adds.len(),
    decreases adds.len(),
{
    if adds.len() > 0 {
        law_count_of_additions(adds.drop_last());
        lemma_sorted_insert_len(registry_of(adds.drop_last()), adds.last());
    }
}

/// Whatever order options are added in, the registry is sorted by short form.
pub proof fn law_registry_sorted(adds: Seq<OptionModel>)
    ensures
        sorted_by_short(registry_of(adds)),
    decreases adds.len(),
{
    if adds.len() > 0 {
        law_registry_sorted(adds.drop_last());
        lemma_sorted_insert_sorted(registry_of(adds.drop_last()), adds.last());
    }
}

/// After storing `v` under `k`, `k` gives `v`, and every other name gives what
/// it gave before.
pub proof fn law_put_then_get(s: Seq<(Seq<char>, ArgValue)>, k: Seq<char>, v: ArgValue, other: Seq<char>)
    ensures
        store_get(store_put(s, k, v), k) == Some(v),
        other != k ==> store_get(store_put(s, k, v), other) == store_get(s, other),
    decreases s.len(),
{
    if s.len() > 0 && s[0].0 != k {
        law_put_then_get(s.drop_first(), k, v, other);
        let r = seq![s[0]] + store_put(s.drop_first(), k, v);
        assert(r[0] == s[0]);
        assert(r.drop_first() =~= store_put(s.drop_first(), k, v));
    } else if s.len() > 0 {
        let r = seq![(k, v)] + s.drop_first();
        assert(r[0] == (k, v));
        assert(r.drop_first() =~= s.drop_first());
        if other != k {
            assert(store_get(r, other) == store_get(s.drop_first(), other));
        }
    } else {
        let r = seq![(k, v)];
        assert(r[0] == (k, v));
        assert(r.drop_first() =~= Seq::<(Seq<char>, ArgValue)>::empty());
        assert(store_get(Seq::<(Seq<char>, ArgValue)>::empty(), other) is None);
        if other != k {
            assert(store_get(r, other) == store_get(r.drop_first(), other));
        }
    }
}

/// Storing under one name twice leaves what the second store alone would:
/// the later value wins and the earlier one leaves no trace.
pub proof fn law_second_store_wins(s: Seq<(Seq<char>, ArgValue)>, k: Seq<char>, v1: ArgValue, v2: ArgValue)
    ensures
        store_put(store_put(s, k, v1), k, v2) == store_put(s, k, v2),
    decreases s.len(),
{
    if s.len() == 0 {
        assert(seq![(k, v1)].drop_first() =~= Seq::<(Seq<char>, ArgValue)>::empty());
    } else if s[0].0 == k {
        assert((seq![(k, v1)] + s.drop_first()).drop_first() =~= s.drop_first());
    } else {
        law_second_store_wins(s.drop_first(), k, v1, v2);
        assert((seq![s[0]] + store_put(s.drop_first(), k, v1)).drop_first() =~= store_put(
            s.drop_first(),
            k,
            v1,
        ));
    }
}

/// A flag given twice with a value each time: the option ends up holding the
/// second value.
pub proof fn law_repeated_flag(
    opts: Seq<OptionModel>,
    args: Seq<(Seq<char>, ArgValue)>,
    diags: Seq<Seq<char>>,
    t: Seq<char>,
    x: Seq<char>,
    y: Seq<char>,
)
    requires
        is_long_flag(t) || is_short_flag(t),
        first_match(opts, flag_text(t), is_long_flag(t)) is Some,
        first_match(opts, flag_text(t), is_long_flag(t))->0.value_type != CmdOptionValueType::NoValue,
        coerce(first_match(opts, flag_text(t), is_long_flag(t))->0.value_type, x) is Some,
        coerce(first_match(opts, flag_text(t), is_long_flag(t))->0.value_type, y) is Some,
    ensures
        ({
            let o = first_match(opts, flag_text(t), is_long_flag(t))->0;
            let r = parse_tokens(opts, args, diags, seq![t, x, t, y]);
            &&& r.2 is None
            &&& r.1 == diags
            &&& store_get(r.0, o.short) == coerce(o.value_type, y)
        }),
{
    let o = first_match(opts, flag_text(t), is_long_flag(t))->0;
    let toks = seq![t, x, t, y];
    let rest = seq![t, y];
    assert(toks[0] == t && toks[1] == x && toks.len() == 4);
    assert(rest[0] == t && rest[1] == y && rest.len() == 2);
    assert(toks.subrange(2, 4) =~= rest);
    assert(rest.subrange(2, 2) =~= Seq::<Seq<char>>::empty());
    let a1 = store_put(args, o.short, coerce(o.value_type, x)->0);
    let v2 = coerce(o.value_type, y)->0;
    assert(parse_tokens(opts, args, diags, toks) == parse_tokens(opts, a1, diags, rest));
    assert(parse_tokens(opts, a1, diags, rest) == parse_tokens(
        opts,
        store_put(a1, o.short, v2),
        diags,
        Seq::<Seq<char>>::empty(),
    ));
    law_second_store_wins(args, o.short, coerce(o.value_type, x)->0, v2);
    law_put_then_get(a1, o.short, v2, o.short);
}

/// An unregistered flag adds one diagnostic line, stores nothing, and no
/// lookup of it ever finds a value.
pub proof fn law_unknown_flag(
    opts: Seq<OptionModel>,
    args: Seq<(Seq<char>, ArgValue)>,
    diags: Seq<Seq<char>>,
    t: Seq<char>,
    rest: Seq<Seq<char>>,
    m: CommanderModel,
)
    requires
        is_long_flag(t) || is_short_flag(t),
        first_match(opts, flag_text(t), is_long_flag(t)) is None,
        m.options == opts,
    ensures
        parse_tokens(opts, args, diags, seq![t] + rest) == parse_tokens(
            opts,
            args,
            diags.push(unsupported_line(is_long_flag(t), flag_text(t))),
            rest,
        ),
        lookup(m, flag_text(t), is_long_flag(t)) is None,
{
    assert((seq![t] + rest).drop_first() =~= rest);
}

/// No two options share a short form.
pub open spec fn short_forms_distinct(opts: Seq<OptionModel>) -> bool {
    forall|i: int, j: int| 0 <= i < j < opts.len() ==> (#[trigger] opts[i]).short != (#[trigger] opts[j]).short
}

/// Every float value in `args` is stored under the short form of a Float option.
pub open spec fn decimals_declared(args: Seq<(Seq<char>, ArgValue)>, opts: Seq<OptionModel>) -> bool {
    forall|i: int|
        0 <= i < args.len() && (#[trigger] args[i]).1 is Decimal ==> exists|j: int|
            0 <= j < opts.len() && (#[trigger] opts[j]).short == args[i].0 && opts[j].value_type
                == CmdOptionValueType::Float
}

proof fn lemma_first_match_member(s: Seq<OptionModel>, tok: Seq<char>, long: bool)
    requires
        first_match(s, tok, long) is Some,
    ensures
        exists|j: int| 0 <= j < s.len() && s[j] == first_match(s, tok, long)->0,
    decreases s.len(),
{
    if !option_matches(s[0], tok, long) {
        lemma_first_match_member(s.drop_first(), tok, long);
        let j = choose|j: int| 0 <= j < s.len() - 1 && s.drop_first()[j] == first_match(s, tok, long)->0;
        assert(s[j + 1] == first_match(s, tok, long)->0);
    } else {
        assert(s[0] == first_match(s, tok, long)->0);
    }
}

proof fn lemma_store_get_member(s: Seq<(Seq<char>, ArgValue)>, k: Seq<char>)
    requires
        store_get(s, k) is Some,
    ensures
        exists|i: int| 0 <= i < s.len() && s[i] == (k, store_get(s, k)->0),
    decreases s.len(),
{
    if s[0].0 != k {
        lemma_store_get_member(s.drop_first(), k);
        let i = choose|i: int| 0 <= i < s.len() - 1 && s.drop_first()[i] == (k, store_get(s, k)->0);
        assert(s[i + 1] == (k, store_get(s, k)->0));
    } else {
        assert(s[0] == (k, store_get(s, k)->0));
    }
}

proof fn lemma_store_put_declared(s: Seq<(Seq<char>, ArgValue)>, k: Seq<char>, v: ArgValue, opts: Seq<OptionModel>)
    requires
        decimals_declared(s, opts),
        v is Decimal ==> exists|j: int|
            0 <= j < opts.len() && (#[trigger] opts[j]).short == k && opts[j].value_type
                == CmdOptionValueType::Float,
    ensures
        decimals_declared(store_put(s, k, v), opts),
    decreases s.len(),
{
    let r = store_put(s, k, v);
    if s.len() == 0 {
    } else if s[0].0 == k {
        assert forall|i: int| 0 <= i < r.len() && (#[trigger] r[i]).1 is Decimal implies exists|j: int|
            0 <= j < opts.len() && (#[trigger] opts[j]).short == r[i].0 && opts[j].value_type
                == CmdOptionValueType::Float by {
            if i > 0 {
                assert(r[i] == s[i]);
            }
        }
    } else {
        let t = s.drop_first();
        assert(decimals_declared(t, opts)) by {
            assert forall|i: int| 0 <= i < t.len() && (#[trigger] t[i]).1 is Decimal implies exists|j: int|
                0 <= j < opts.len() && (#[trigger] opts[j]).short == t[i].0 && opts[j].value_type
                    == CmdOptionValueType::Float by {
                assert(t[i] == s[i + 1]);
            }
        }
        lemma_store_put_declared(t, k, v, opts);
        let rt = store_put(t, k, v);
        assert forall|i: int| 0 <= i < r.len() && (#[trigger] r[i]).1 is Decimal implies exists|j: int|
            0 <= j < opts.len() && (#[trigger] opts[j]).short == r[i].0 && opts[j].value_type
                == CmdOptionValueType::Float by {
            if i > 0 {
                assert(r[i] == rt[i - 1]);
            } else {
                assert(r[0] == s[0]);
            }
        }
    }
}

proof fn lemma_parse_declared(
    opts: Seq<OptionModel>,
    args: Seq<(Seq<char>, ArgValue)>,
    diags: Seq<Seq<char>>,
    toks: Seq<Seq<char>>,
)
    requires
        decimals_declared(args, opts),
    ensures
        decimals_declared(parse_tokens(opts, args, diags, toks).0, opts),
    decreases toks.len(),
{
    if toks.len() > 0 {
        let t = toks[0];
        let rest = toks.drop_first();
        if !is_long_flag(t) && !is_short_flag(t) {
            lemma_parse_declared(opts, args, diags.push(crate::commander::stray_line(t)), rest);
        } else {
            match first_match(opts, flag_text(t), is_long_flag(t)) {
                None => {
                    lemma_parse_declared(
                        opts,
                        args,
                        diags.push(unsupported_line(is_long_flag(t), flag_text(t))),
                        rest,
                    );
                },
                Some(o) => {
                    lemma_first_match_member(opts, flag_text(t), is_long_flag(t));
                    if o.value_type == CmdOptionValueType::NoValue || toks.len() == 1 {
                        lemma_store_put_declared(args, o.short, ArgValue::Nothing, opts);
                        lemma_parse_declared(opts, store_put(args, o.short, ArgValue::Nothing), diags, rest);
                    } else {
                        match coerce(o.value_type, toks[1]) {
                            Some(v) => {
                                lemma_store_put_declared(args, o.short, v, opts);
                                lemma_parse_declared(
                                    opts,
                                    store_put(args, o.short, v),
                                    diags,
                                    toks.subrange(2, toks.len() as int),
                                );
                            },
                            None => {},
                        }
                    }
                },
            }
        }
    }
}

/// With distinct short forms, reading arguments after the executable path
/// never leaves a float value on an option declared as String.
pub proof fn law_string_option_has_no_float(
    opts: Seq<OptionModel>,
    exe: Seq<char>,
    toks: Seq<Seq<char>>,
    tok: Seq<char>,
    is_longform: bool,
)
    requires
        short_forms_distinct(opts),
        first_match(opts, tok, is_longform) is Some,
        first_match(opts, tok, is_longform)->0.value_type == CmdOptionValueType::String,
    ensures
        ({
            let start = store_put(Seq::empty(), exec_key(), ArgValue::Text(exe));
            let r = parse_tokens(opts, start, Seq::empty(), toks);
            decimal_of(lookup(CommanderModel { options: opts, args: r.0, diagnostics: r.1 }, tok, is_longform))
                is None
        }),
{
    let start = store_put(Seq::<(Seq<char>, ArgValue)>::empty(), exec_key(), ArgValue::Text(exe));
    assert(start =~= seq![(exec_key(), ArgValue::Text(exe))]);
    assert(decimals_declared(start, opts));
    lemma_parse_declared(opts, start, Seq::empty(), toks);
    let r = parse_tokens(opts, start, Seq::empty(), toks);
    let o = first_match(opts, tok, is_longform)->0;
    lemma_first_match_member(opts, tok, is_longform);
    let jo = choose|j: int| 0 <= j < opts.len() && opts[j] == o;
    if store_get(r.0, o.short) is Some && store_get(r.0, o.short)->0 is Decimal {
        lemma_store_get_member(r.0, o.short);
        let i = choose|i: int| 0 <= i < r.0.len() && r.0[i] == (o.short, store_get(r.0, o.short)->0);
        assert(r.0[i].1 is Decimal);
        let j = choose|j: int|
            0 <= j < opts.len() && (#[trigger] opts[j]).short == r.0[i].0 && opts[j].value_type
                == CmdOptionValueType::Float;
        assert(j != jo);
        if j < jo {
            assert(opts[j].short != opts[jo].short);
        } else {
            assert(opts[jo].short != opts[j].short);
        }
    }
}

/// How many line breaks `s` holds.
pub open spec fn newline_count(s: Seq<char>) -> nat
    decreases s.len(),
{
    if s.len() == 0 {
        0
    } else {
        newline_count(s.drop_last()) + if s.last() == '\n' {
            1nat
        } else {
            0nat
        }
    }
}

pub open spec fn no_newline(s: Seq<char>) -> bool {
    forall|i: int| 0 <= i < s.len() ==> s[i] != '\n'
}

proof fn lemma_newline_count_add(a: Seq<char>, b: Seq<char>)
    ensures
        newline_count(a + b) == newline_count(a) + newline_count(b),
    decreases b.len(),
{
    if b.len() > 0 {
        assert((a + b).drop_last() =~= a + b.drop_last());
        lemma_newline_count_add(a, b.drop_last());
    } else {
        assert(a + b =~= a);
    }
}

proof fn lemma_no_newline_count(s: Seq<char>)
    requires
        no_newline(s),
    ensures
        newline_count(s) == 0,
    decreases s.len(),
{
    if s.len() > 0 {
        lemma_no_newline_count(s.drop_last());
    }
}

proof fn lemma_help_line_count(o: OptionModel)
    requires
        no_newline(o.long),
        no_newline(o.short),
        no_newline(o.description),
    ensures
        newline_count(help_line(o)) == 1,
{
    reveal_strlit("\t--");
    reveal_strlit(", -");
    reveal_strlit("\t\t");
    reveal_strlit("\n");
    reveal_strlit("\t\t[string]");
    reveal_strlit("\t\t[Float]");
    reveal_strlit("\t\t[Number]");
    reveal_strlit("\t\t[no parameter]");
    let lead = "\t--"@;
    let sep = ", -"@;
    let tag = type_tag(o.value_type);
    let gap = "\t\t"@;
    let brk = "\n"@;
    assert(lead =~= seq!['\t', '-', '-']);
    assert(sep =~= seq![',', ' ', '-']);
    assert(gap =~= seq!['\t', '\t']);
    assert(brk =~= seq!['\n']);
    assert("\t\t[string]"@ =~= seq!['\t', '\t', '[', 's', 't', 'r', 'i', 'n', 'g', ']']);
    assert("\t\t[Float]"@ =~= seq!['\t', '\t', '[', 'F', 'l', 'o', 'a', 't', ']']);
    assert("\t\t[Number]"@ =~= seq!['\t', '\t', '[', 'N', 'u', 'm', 'b', 'e', 'r', ']']);
    assert("\t\t[no parameter]"@ =~= seq![
        '\t', '\t', '[', 'n', 'o', ' ', 'p', 'a', 'r', 'a', 'm', 'e', 't', 'e', 'r', ']',
    ]);
    assert(newline_count(Seq::<char>::empty()) == 0);
    assert(no_newline(lead));
    assert(no_newline(sep));
    assert(no_newline(tag));
    assert(no_newline(gap));
    lemma_no_newline_count(lead);
    lemma_no_newline_count(sep);
    lemma_no_newline_count(tag);
    lemma_no_newline_count(gap);
    lemma_no_newline_count(o.long);
    lemma_no_newline_count(o.short);
    lemma_no_newline_count(o.description);
    assert(brk.drop_last() =~= Seq::<char>::empty());
    let a1 = lead + o.long;
    let a2 = a1 + sep;
    let a3 = a2 + o.short;
    let a4 = a3 + tag;
    let a5 = a4 + gap;
    let a6 = a5 + o.description;
    lemma_newline_count_add(lead, o.long);
    lemma_newline_count_add(a1, sep);
    lemma_newline_count_add(a2, o.short);
    lemma_newline_count_add(a3, tag);
    lemma_newline_count_add(a4, gap);
    lemma_newline_count_add(a5, o.description);
    lemma_newline_count_add(a6, brk);
}

/// The help text has one line per option, plus its header line, when no
/// option's forms or description hold a line break of their own.
pub proof fn law_help_lines(s: Seq<OptionModel>)
    requires
        forall|i: int|
            0 <= i < s.len() ==> no_newline((#[trigger] s[i]).long) && no_newline(s[i].short)
                && no_newline(s[i].description),
    ensures
        newline_count(help_text(s)) == s.len() + 1,
    decreases s.len(),
{
    reveal_strlit("Options available:\n");
    let h = help_header();
    let body = seq!['O', 'p', 't', 'i', 'o', 'n', 's', ' ', 'a', 'v', 'a', 'i', 'l', 'a', 'b', 'l', 'e', ':'];
    assert(h =~= body.push('\n'));
    assert(h.drop_last() =~= body);
    assert(no_newline(body));
    lemma_no_newline_count(body);
    lemma_help_lines_count(s);
    lemma_newline_count_add(h, help_lines(s));
}

proof fn lemma_help_lines_count(s: Seq<OptionModel>)
    requires
        forall|i: int|
            0 <= i < s.len() ==> no_newline((#[trigger] s[i]).long) && no_newline(s[i].short)
                && no_newline(s[i].description),
    ensures
        newline_count(help_lines(s)) == s.len(),
    decreases s.len(),
{
    if s.len() > 0 {
        let t = s.drop_last();
        assert forall|i: int|
            0 <= i < t.len() implies no_newline((#[trigger] t[i]).long) && no_newline(t[i].short)
                && no_newline(t[i].description) by {
            assert(t[i] == s[i]);
        }
        lemma_help_lines_count(t);
        assert(s.last() == s[s.len() - 1]);
        lemma_help_line_count(s.last());
        lemma_newline_count_add(help_lines(t), help_line(s.last()));
    }
}

} // verus!
