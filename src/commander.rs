use vstd::prelude::*;
use vstd::string::*;

use crate::coerce::{i32_of_text, is_float_literal, is_float_text, parse_i32};
use crate::registry::{
    find_option, first_match, insert_sorted, lemma_sorted_insert_sorted, options_view, sorted_by_short,
    sorted_insert, CmdLineOption, OptionModel,
};
use crate::store::{
    find_argument, keys_distinct, put_argument, store_get, store_put, store_view, ArgValue, CmdArgument,
    CmdArgumentValue,
};
use crate::CmdOptionValueType;

verus! {

/// The whole state of a `Commander`, as plain values.
pub struct CommanderModel {
    pub options: Seq<OptionModel>,
    pub args: Seq<(Seq<char>, ArgValue)>,
    pub diagnostics: Seq<Seq<char>>,
}

/// What a failed coercion reports, as plain values.
pub struct FailureModel {
    pub option: Seq<char>,
    pub text: Seq<char>,
    pub expected: CmdOptionValueType,
}

/// A value token that could not be read as the type its option declares.
#[derive(Debug)]
pub struct CoercionError {
    /// Canonical (short) name of the option.
    pub option: String,
    /// The token that was to be its value.
    pub text: String,
    /// The type the option declares.
    pub expected: CmdOptionValueType,
}

impl View for CoercionError {
    type V = FailureModel;

    open spec fn view(&self) -> FailureModel {
        FailureModel { option: self.option@, text: self.text@, expected: self.expected }
    }
}

/// A registry of supported options, and the arguments recognised against it.
pub struct Commander {
    options: Vec<CmdLineOption>,
    args: Vec<CmdArgument>,
    diagnostics: Vec<String>,
}

pub open spec fn texts_view(v: Seq<String>) -> Seq<Seq<char>> {
    v.map_values(|s: String| s@)
}

impl View for Commander {
    type V = CommanderModel;

    closed spec fn view(&self) -> CommanderModel {
        CommanderModel {
            options: options_view(self.options@),
            args: store_view(self.args@),
            diagnostics: texts_view(self.diagnostics@),
        }
    }
}

/// The key under which the executable path is stored.
pub open spec fn exec_key() -> Seq<char> {
    "__exec__"@
}

/// A token that starts with `--`.
pub open spec fn is_long_flag(t: Seq<char>) -> bool {
    t.len() >= 2 && t[0] == '-' && t[1] == '-'
}

/// A token that starts with a single `-`.
pub open spec fn is_short_flag(t: Seq<char>) -> bool {
    !is_long_flag(t) && t.len() >= 1 && t[0] == '-'
}

/// A flag token without its dashes.
pub open spec fn flag_text(t: Seq<char>) -> Seq<char> {
    if is_long_flag(t) {
        t.subrange(2, t.len() as int)
    } else {
        t.subrange(1, t.len() as int)
    }
}

pub open spec fn unsupported_line(is_longform: bool, flag: Seq<char>) -> Seq<char> {
    (if is_longform {
        "[BAD] O(L): "@
    } else {
        "[BAD] O(S): "@
    }) + flag
}

pub open spec fn stray_line(t: Seq<char>) -> Seq<char> {
    "[BAD?] V: "@ + t
}

/// The value that `raw` gives an option of type `t`, if it can be read as one.
pub open spec fn coerce(t: CmdOptionValueType, raw: Seq<char>) -> Option<ArgValue> {
    match t {
        CmdOptionValueType::String => Some(ArgValue::Text(raw)),
        CmdOptionValueType::Number => match i32_of_text(raw) {
            Some(n) => Some(ArgValue::Int(n)),
            None => None,
        },
        CmdOptionValueType::Float => if is_float_text(raw) {
            Some(ArgValue::Decimal(raw))
        } else {
            None
        },
        CmdOptionValueType::NoValue => Some(ArgValue::Nothing),
    }
}

/// The arguments and diagnostics that result from reading `toks` against the
/// registry `opts`, starting from `args` and `diags`; and the coercion failure
/// that stopped the reading, if one did.
pub open spec fn parse_tokens(
    opts: Seq<OptionModel>,
    args: Seq<(Seq<char>, ArgValue)>,
    diags: Seq<Seq<char>>,
    toks: Seq<Seq<char>>,
) -> (Seq<(Seq<char>, ArgValue)>, Seq<Seq<char>>, Option<FailureModel>)
    decreases toks.len(),
{
    if toks.len() == 0 {
        (args, diags, None)
    } else {
        let t = toks[0];
        let rest = toks.drop_first();
        if !is_long_flag(t) && !is_short_flag(t) {
            parse_tokens(opts, args, diags.push(stray_line(t)), rest)
        } else {
            match first_match(opts, flag_text(t), is_long_flag(t)) {
                None => parse_tokens(opts, args, diags.push(unsupported_line(is_long_flag(t), flag_text(t))), rest),
                Some(o) => if o.value_type == CmdOptionValueType::NoValue || toks.len() == 1 {
                    parse_tokens(opts, store_put(args, o.short, ArgValue::Nothing), diags, rest)
                } else {
                    match coerce(o.value_type, toks[1]) {
                        Some(v) => parse_tokens(
                            opts,
                            store_put(args, o.short, v),
                            diags,
                            toks.subrange(2, toks.len() as int),
                        ),
                        None => (
                            args,
                            diags,
                            Some(FailureModel { option: o.short, text: toks[1], expected: o.value_type }),
                        ),
                    }
                },
            }
        }
    }
}

/// The tokens after the executable path.
pub open spec fn after_executable(toks: Seq<Seq<char>>) -> Seq<Seq<char>> {
    if toks.len() == 0 {
        toks
    } else {
        toks.drop_first()
    }
}

/// The value stored for the option that `tok` names.
pub open spec fn lookup(m: CommanderModel, tok: Seq<char>, is_longform: bool) -> Option<ArgValue> {
    match first_match(m.options, tok, is_longform) {
        Some(o) => store_get(m.args, o.short),
        None => None,
    }
}

pub open spec fn number_of(v: Option<ArgValue>) -> Option<i32> {
    match v {
        Some(ArgValue::Int(n)) => Some(n),
        _ => None,
    }
}

pub open spec fn text_of(v: Option<ArgValue>) -> Option<Seq<char>> {
    match v {
        Some(ArgValue::Text(s)) => Some(s),
        _ => None,
    }
}

pub open spec fn decimal_of(v: Option<ArgValue>) -> Option<Seq<char>> {
    match v {
        Some(ArgValue::Decimal(s)) => Some(s),
        _ => None,
    }
}

pub open spec fn opt_text_view(r: Option<String>) -> Option<Seq<char>> {
    match r {
        Some(s) => Some(s@),
        None => None,
    }
}

pub open spec fn type_tag(t: CmdOptionValueType) -> Seq<char> {
    match t {
        CmdOptionValueType::String => "\t\t[string]"@,
        CmdOptionValueType::Float => "\t\t[Float]"@,
        CmdOptionValueType::Number => "\t\t[Number]"@,
        CmdOptionValueType::NoValue => "\t\t[no parameter]"@,
    }
}

/// The help line of one option.
pub open spec fn help_line(o: OptionModel) -> Seq<char> {
    "\t--"@ + o.long + ", -"@ + o.short + type_tag(o.value_type) + "\t\t"@ + o.description + "\n"@
}

pub open spec fn help_lines(s: Seq<OptionModel>) -> Seq<char>
    decreases s.len(),
{
    if s.len() == 0 {
        Seq::empty()
    } else {
        help_lines(s.drop_last()) + help_line(s.last())
    }
}

pub open spec fn help_header() -> Seq<char> {
    "Options available:\n"@
}

/// The help text: a header line, then one line per option in registry order.
pub open spec fn help_text(s: Seq<OptionModel>) -> Seq<char> {
    help_header() + help_lines(s)
}

fn coerce_value(t: CmdOptionValueType, raw: &str) -> (r: Option<CmdArgumentValue>)
    ensures
        match r {
            Some(v) => coerce(t, raw@) == Some(v@),
            None => coerce(t, raw@) is None,
        },
{
    match t {
        CmdOptionValueType::String => Some(CmdArgumentValue::String(raw.to_owned())),
        CmdOptionValueType::Number => match parse_i32(raw) {
            Some(n) => Some(CmdArgumentValue::Number(n)),
            None => None,
        },
        CmdOptionValueType::Float => if is_float_literal(raw) {
            Some(CmdArgumentValue::Float(raw.to_owned()))
        } else {
            None
        },
        CmdOptionValueType::NoValue => Some(CmdArgumentValue::NoValue),
    }
}

impl Commander {
    /// Sorted registry, and one entry per stored name.
    pub open spec fn wf(&self) -> bool {
        sorted_by_short(self@.options) && keys_distinct(self@.args)
    }

    /// A commander with no options and no arguments.
    pub fn new() -> (r: Commander)
        ensures
            r.wf(),
            r@.options == Seq::<OptionModel>::empty(),
            r@.args == Seq::<(Seq<char>, ArgValue)>::empty(),
            r@.diagnostics == Seq::<Seq<char>>::empty(),
    {
        let r = Commander { options: Vec::new(), args: Vec::new(), diagnostics: Vec::new() };
        assert(r@.options =~= Seq::<OptionModel>::empty());
        assert(r@.args =~= Seq::<(Seq<char>, ArgValue)>::empty());
        assert(r@.diagnostics =~= Seq::<Seq<char>>::empty());
        r
    }

    /// Registers an option; the registry stays sorted by short form, the new
    /// option after any with an equal short form.
    pub fn add_option(
        &mut self,
        shortform: &str,
        longform: &str,
        description: &str,
        value_type: CmdOptionValueType,
    )
        requires
            old(self).wf(),
        ensures
            final(self).wf(),
            final(self)@.options == sorted_insert(
                old(self)@.options,
                OptionModel {
                    short: shortform@,
                    long: longform@,
                    description: description@,
                    value_type,
                },
            ),
            final(self)@.args == old(self)@.args,
            final(self)@.diagnostics == old(self)@.diagnostics,
    {
        let o = CmdLineOption {
            shortform: shortform.to_owned(),
            longform: longform.to_owned(),
            description: description.to_owned(),
            value_type,
        };
        proof {
            lemma_sorted_insert_sorted(options_view(self.options@), o@);
        }
        insert_sorted(&mut self.options, o);
    }
}

impl Commander {
    /// Stores the executable path, then reads the remaining arguments.
    pub fn init_from_args(&mut self, args: Vec<String>) -> (r: Result<(), CoercionError>)
        requires
            old(self).wf(),
            args@.len() > 0,
        ensures
            final(self).wf(),
            final(self)@.options == old(self)@.options,
            ({
                let (a, d, f) = parse_tokens(
                    old(self)@.options,
                    store_put(old(self)@.args, exec_key(), ArgValue::Text(args@[0]@)),
                    old(self)@.diagnostics,
                    after_executable(texts_view(args@)),
                );
                &&& final(self)@.args == a
                &&& final(self)@.diagnostics == d
                &&& match r {
                    Ok(_) => f is None,
                    Err(e) => f == Some(e@),
                }
            }),
    {
        self.add_executable_arg(&args);
        self.parse_args(args)
    }

    /// The integer value stored for the option that `option` names.
    pub fn get_number_option(&self, option: &str, is_longform: bool) -> (r: Option<i32>)
        ensures
            r == number_of(lookup(self@, option@, is_longform)),
    {
        match find_option(&self.options, option, is_longform) {
            Some(k) => {
                assert(options_view(self.options@)[k as int] == self.options@[k as int]@);
                match find_argument(&self.args, self.options[k].shortform.as_str()) {
                    Some(j) => {
                        assert(store_view(self.args@)[j as int] == self.args@[j as int]@);
                        match &self.args[j].value {
                            CmdArgumentValue::Number(v) => Some(*v),
                            _ => None,
                        }
                    },
                    None => None,
                }
            },
            None => None,
        }
    }

    /// The decimal text of the float value stored for the option that `option` names;
    /// `str::parse::<f32>` accepts it.
    pub fn get_float_option(&self, option: &str, is_longform: bool) -> (r: Option<String>)
        ensures
            opt_text_view(r) == decimal_of(lookup(self@, option@, is_longform)),
    {
        match find_option(&self.options, option, is_longform) {
            Some(k) => {
                assert(options_view(self.options@)[k as int] == self.options@[k as int]@);
                match find_argument(&self.args, self.options[k].shortform.as_str()) {
                    Some(j) => {
                        assert(store_view(self.args@)[j as int] == self.args@[j as int]@);
                        match &self.args[j].value {
                            CmdArgumentValue::Float(v) => Some(v.clone()),
                            _ => None,
                        }
                    },
                    None => None,
                }
            },
            None => None,
        }
    }

    /// The string value stored for the option that `option` names.
    pub fn get_string_option(&self, option: &str, is_longform: bool) -> (r: Option<String>)
        ensures
            opt_text_view(r) == text_of(lookup(self@, option@, is_longform)),
    {
        match find_option(&self.options, option, is_longform) {
            Some(k) => {
                assert(options_view(self.options@)[k as int] == self.options@[k as int]@);
                match find_argument(&self.args, self.options[k].shortform.as_str()) {
                    Some(j) => {
                        assert(store_view(self.args@)[j as int] == self.args@[j as int]@);
                        match &self.args[j].value {
                            CmdArgumentValue::String(v) => Some(v.clone()),
                            _ => None,
                        }
                    },
                    None => None,
                }
            },
            None => None,
        }
    }

    /// The help text: a header line, then one line per option in registry order.
    #[verifier::rlimit(40)]
    pub fn help(&self) -> (r: String)
        ensures
            r@ == help_text(self@.options),
    {
        let mut out = "Options available:\n".to_owned();
        let n = self.options.len();
        let ghost s = self@.options;
        let mut i: usize = 0;
        assert(s.subrange(0, 0) =~= Seq::<OptionModel>::empty());
        assert(out@ =~= help_header() + help_lines(s.subrange(0, 0)));
        while i < n
            invariant
                i <= n,
                n == s.len(),
                s == self@.options,
                out@ == help_header() + help_lines(s.subrange(0, i as int)),
            decreases n - i,
        {
            let o = &self.options[i];
            assert(s[i as int] == o@);
            out.append("\t--");
            out.append(o.longform.as_str());
            out.append(", -");
            out.append(o.shortform.as_str());
            match o.value_type {
                CmdOptionValueType::String => out.append("\t\t[string]"),
                CmdOptionValueType::Float => out.append("\t\t[Float]"),
                CmdOptionValueType::Number => out.append("\t\t[Number]"),
                CmdOptionValueType::NoValue => out.append("\t\t[no parameter]"),
            }
            out.append("\t\t");
            out.append(o.description.as_str());
            out.append("\n");
            assert(s.subrange(0, i + 1).drop_last() =~= s.subrange(0, i as int));
            assert(out@ =~= help_header() + help_lines(s.subrange(0, i + 1)));
            i += 1;
        }
        assert(s.subrange(0, n as int) =~= s);
        out
    }

    /// Number of registered options.
    pub fn option_count(&self) -> (r: usize)
        ensures
            r == self@.options.len(),
    {
        self.options.len()
    }

    /// Number of stored arguments, the executable path included.
    pub fn arg_count(&self) -> (r: usize)
        ensures
            r == self@.args.len(),
    {
        self.args.len()
    }

    /// The stored arguments, each under its canonical name.
    pub fn arguments(&self) -> (r: &Vec<CmdArgument>)
        ensures
            store_view(r@) == self@.args,
    {
        &self.args
    }

    /// The diagnostic lines reported for tokens that were skipped.
    pub fn diagnostics(&self) -> (r: &Vec<String>)
        ensures
            texts_view(r@) == self@.diagnostics,
    {
        &self.diagnostics
    }

    /// Stores the first element of `args`, the executable path, under `__exec__`.
    pub fn add_executable_arg(&mut self, args: &Vec<String>)
        requires
            old(self).wf(),
            args@.len() > 0,
        ensures
            final(self).wf(),
            final(self)@.options == old(self)@.options,
            final(self)@.args == store_put(old(self)@.args, exec_key(), ArgValue::Text(args@[0]@)),
            final(self)@.diagnostics == old(self)@.diagnostics,
    {
        let a = CmdArgument {
            option: "__exec__".to_owned(),
            value: CmdArgumentValue::String(args[0].clone()),
        };
        put_argument(&mut self.args, a);
    }

    /// Reads the arguments after the executable path against the registry.
    /// A bare value or an unknown flag adds a diagnostic line and is skipped.
    /// A known flag stores its value under the option's short form; a flag
    /// that takes a value and is last stores no value. Reading stops with an
    /// error at the first value that cannot be read as its option's type.
    pub fn parse_args(&mut self, args: Vec<String>) -> (r: Result<(), CoercionError>)
        requires
            old(self).wf(),
        ensures
            final(self).wf(),
            final(self)@.options == old(self)@.options,
            ({
                let (a, d, f) = parse_tokens(
                    old(self)@.options,
                    old(self)@.args,
                    old(self)@.diagnostics,
                    after_executable(texts_view(args@)),
                );
                &&& final(self)@.args == a
                &&& final(self)@.diagnostics == d
                &&& match r {
                    Ok(_) => f is None,
                    Err(e) => f == Some(e@),
                }
            }),
    {
        let n = args.len();
        let ghost toks = texts_view(args@);
        let ghost opts = self@.options;
        let ghost target = parse_tokens(opts, self@.args, self@.diagnostics, after_executable(toks));
        let mut i: usize = if n == 0 { 0 } else { 1 };
        assert(after_executable(toks) =~= toks.subrange(i as int, n as int));
        while i < n
            invariant
                i <= n,
                n == args@.len(),
                toks == texts_view(args@),
                self.wf(),
                self@.options == opts,
                opts == old(self)@.options,
                target == parse_tokens(opts, old(self)@.args, old(self)@.diagnostics, after_executable(toks)),
                target == parse_tokens(opts, self@.args, self@.diagnostics, toks.subrange(i as int, n as int)),
            decreases n - i,
        {
            let ghost rest = toks.subrange(i as int, n as int);
            assert(rest[0] == args@[i as int]@);
            assert(rest.drop_first() =~= toks.subrange(i + 1, n as int));
            let tok = args[i].as_str();
            let len = tok.unicode_len();
            let long = len >= 2 && tok.get_char(0) == '-' && tok.get_char(1) == '-';
            let short = !long && len >= 1 && tok.get_char(0) == '-';
            let ghost d0 = self@.diagnostics;
            if !long && !short {
                let mut line = "[BAD?] V: ".to_owned();
                line.append(tok);
                self.diagnostics.push(line);
                assert(self@.diagnostics =~= d0.push(stray_line(rest[0])));
                i += 1;
            } else {
                let from: usize = if long { 2 } else { 1 };
                let flag = tok.substring_char(from, len);
                assert(flag@ == flag_text(rest[0]));
                match find_option(&self.options, flag, long) {
                    None => {
                        let mut line = if long {
                            "[BAD] O(L): ".to_owned()
                        } else {
                            "[BAD] O(S): ".to_owned()
                        };
                        line.append(flag);
                        self.diagnostics.push(line);
                        assert(self@.diagnostics =~= d0.push(unsupported_line(long, flag@)));
                        i += 1;
                    },
                    Some(k) => {
                        let vt = self.options[k].value_type;
                        let name = self.options[k].shortform.clone();
                        assert(options_view(self.options@)[k as int] == self.options@[k as int]@);
                        if vt == CmdOptionValueType::NoValue || i + 1 == n {
                            put_argument(
                                &mut self.args,
                                CmdArgument { option: name, value: CmdArgumentValue::NoValue },
                            );
                            i += 1;
                        } else {
                            assert(rest[1] == args@[i + 1]@);
                            assert(rest.subrange(2, rest.len() as int) =~= toks.subrange(i + 2, n as int));
                            let raw = args[i + 1].as_str();
                            match coerce_value(vt, raw) {
                                Some(v) => {
                                    put_argument(&mut self.args, CmdArgument { option: name, value: v });
                                    i += 2;
                                },
                                None => {
                                    return Err(CoercionError { option: name, text: raw.to_owned(), expected: vt });
                                },
                            }
                        }
                    },
                }
            }
        }
        Ok(())
    }
}

} // verus!
