//! Command-line arguments: telling options from values, and matching options
//! against rules.

use crate::compile::texts;
use crate::token::{run_end, same_text};
use vstd::prelude::*;

verus! {

/// One argument: a long option, without its dashes; a short option, one
/// character; or a value.
#[derive(Debug)]
pub enum Arg<'a> {
    Long(&'a str),
    Short(&'a str),
    Value(&'a str),
}

/// What an argument is.
pub enum ArgView {
    Long(Seq<char>),
    Short(Seq<char>),
    Value(Seq<char>),
}

impl ArgView {
    /// The text of the argument.
    pub open spec fn text(self) -> Seq<char> {
        match self {
            ArgView::Long(x) => x,
            ArgView::Short(x) => x,
            ArgView::Value(x) => x,
        }
    }
}

impl<'a> View for Arg<'a> {
    type V = ArgView;

    open spec fn view(&self) -> ArgView {
        match self {
            Arg::Long(x) => ArgView::Long(x@),
            Arg::Short(x) => ArgView::Short(x@),
            Arg::Value(x) => ArgView::Value(x@),
        }
    }
}

impl<'a> Arg<'a> {
    pub fn as_str(&self) -> (r: &'a str)
        ensures
            r@ == self@.text(),
    {
        match self {
            Arg::Long(x) => *x,
            Arg::Short(x) => *x,
            Arg::Value(x) => *x,
        }
    }
}

/// `s` without the pairs of dashes at its start.
pub open spec fn without_pairs(s: Seq<char>) -> Seq<char>
    decreases s.len(),
{
    if s.len() >= 2 && s[0] == '-' && s[1] == '-' {
        without_pairs(s.subrange(2, s.len() as int))
    } else {
        s
    }
}

/// `s` without the dashes at its start.
pub open spec fn without_dashes(s: Seq<char>) -> Seq<char> {
    s.subrange(run_end(s, 0, |c: char| c == '-'), s.len() as int)
}

/// Where a parser stands: its arguments, the next of them, the short options
/// that are left of a cluster being read, and whether `--` has been seen, so
/// that all that follows is a value.
pub struct ParseState {
    pub items: Seq<Seq<char>>,
    pub at: int,
    pub cluster: Option<Seq<char>>,
    pub rest: bool,
}

impl ParseState {
    /// What bounds the work that is left.
    pub open spec fn left(self) -> (int, int) {
        (
            self.items.len() - self.at,
            match self.cluster {
                Some(c) => c.len() as int + 1,
                None => 0,
            },
        )
    }
}

/// The next argument and the state after it, or nothing once the arguments
/// are used up. A cluster `-abc` gives its characters one by one; `--` gives
/// nothing itself and makes values of all that follows.
pub open spec fn parse_next(m: ParseState) -> (Option<ArgView>, ParseState)
    decreases m.items.len() - m.at, m.left().1,
{
    match m.cluster {
        Some(c) => if c.len() > 0 {
            (
                Some(ArgView::Short(c.subrange(0, 1))),
                ParseState { cluster: Some(c.subrange(1, c.len() as int)), ..m },
            )
        } else {
            parse_next(ParseState { cluster: None, ..m })
        },
        None => if !(0 <= m.at < m.items.len()) {
            (None, m)
        } else {
            let item = m.items[m.at];
            let on = ParseState { at: m.at + 1, ..m };
            if m.rest {
                (Some(ArgView::Value(item)), on)
            } else if item.len() >= 2 && item[0] == '-' && item[1] == '-' {
                if item.len() == 2 {
                    parse_next(ParseState { rest: true, ..on })
                } else {
                    (Some(ArgView::Long(without_pairs(item))), on)
                }
            } else if item.len() >= 1 && item[0] == '-' {
                parse_next(ParseState { cluster: Some(without_dashes(item)), ..on })
            } else {
                (Some(ArgView::Value(item)), on)
            }
        },
    }
}

enum Cluster<'a> {
    Normal,
    Short(&'a str),
}

/// A parser over the arguments of a command line.
pub struct Parse<'a> {
    args: Vec<&'a str>,
    at: usize,
    state: Cluster<'a>,
    rest: bool,
}

fn strip_pairs<'a>(s: &'a str) -> (r: &'a str)
    ensures
        r@ == without_pairs(s@),
{
    let n = s.unicode_len();
    let mut i: usize = 0;
    assert(s@.subrange(0, n as int) =~= s@);
    while n - i >= 2 && s.get_char(i) == '-' && s.get_char(i + 1) == '-'
        invariant
            i <= n,
            n == s@.len(),
            without_pairs(s@) == without_pairs(s@.subrange(i as int, n as int)),
        decreases n - i,
    {
        assert(s@.subrange(i as int, n as int).subrange(2, n - i) =~= s@.subrange(
            i + 2,
            n as int,
        ));
        i += 2;
    }
    proof {
        let tail = s@.subrange(i as int, n as int);
        if n - i >= 2 {
            assert(tail[0] == s@[i as int] && tail[1] == s@[i + 1]);
        }
        assert(without_pairs(tail) == tail);
    }
    s.substring_char(i, n)
}

fn strip_dashes<'a>(s: &'a str) -> (r: &'a str)
    ensures
        r@ == without_dashes(s@),
{
    let n = s.unicode_len();
    let mut i: usize = 0;
    while i < n && s.get_char(i) == '-'
        invariant
            i <= n,
            n == s@.len(),
            forall|j: int| 0 <= j < i ==> s@[j] == '-',
        decreases n - i,
    {
        i += 1;
    }
    proof {
        crate::token::lemma_run_end(s@, 0, i as int, |c: char| c == '-');
    }
    s.substring_char(i, n)
}

impl<'a> Parse<'a> {
    /// Where the parser stands.
    pub closed spec fn view(&self) -> ParseState {
        ParseState {
            items: texts(self.args@),
            at: self.at as int,
            cluster: match self.state {
                Cluster::Normal => None,
                Cluster::Short(c) => Some(c@),
            },
            rest: self.rest,
        }
    }

    /// The parser is among its arguments.
    pub closed spec fn wf(&self) -> bool {
        self.at <= self.args@.len()
    }

    /// A parser at the first of `args`.
    pub fn new(args: Vec<&'a str>) -> (r: Self)
        ensures
            r.wf(),
            r@ == (ParseState { items: texts(args@), at: 0, cluster: None, rest: false }),
    {
        Self { args, at: 0, state: Cluster::Normal, rest: false }
    }

    /// The next argument, or nothing once the arguments are used up.
    pub fn next(&mut self) -> (r: Option<Arg<'a>>)
        requires
            old(self).wf(),
        ensures
            final(self).wf(),
            final(self)@ == parse_next(old(self)@).1,
            match parse_next(old(self)@).0 {
                Some(a) => r.is_some() && r.unwrap()@ == a,
                None => r.is_none(),
            },
    {
        loop
            invariant
                self.wf(),
                parse_next(self@) == parse_next(old(self)@),
            decreases self.args@.len() - self.at, self@.left().1,
        {
            match self.state {
                Cluster::Short(item) => {
                    let n = item.unicode_len();
                    if n > 0 {
                        let c = item.substring_char(0, 1);
                        self.state = Cluster::Short(item.substring_char(1, n));
                        return Some(Arg::Short(c));
                    } else {
                        self.state = Cluster::Normal;
                    }
                },
                Cluster::Normal => {
                    if self.at >= self.args.len() {
                        return None;
                    }
                    let item = self.args[self.at];
                    self.at += 1;
                    if self.rest {
                        return Some(Arg::Value(item));
                    }
                    let n = item.unicode_len();
                    if n >= 2 && item.get_char(0) == '-' && item.get_char(1) == '-' {
                        if n == 2 {
                            self.rest = true;
                        } else {
                            return Some(Arg::Long(strip_pairs(item)));
                        }
                    } else if n >= 1 && item.get_char(0) == '-' {
                        self.state = Cluster::Short(strip_dashes(item));
                    } else {
                        return Some(Arg::Value(item));
                    }
                },
            }
        }
    }
}


/// What an option is called and how many parameters it takes.
pub struct Rule<'a> {
    pub name: &'a str,
    pub short: Option<char>,
    pub arity: u8,
}

/// What a rule is.
pub struct RuleView {
    pub name: Seq<char>,
    pub short: Option<char>,
    pub arity: u8,
}

impl<'a> View for Rule<'a> {
    type V = RuleView;

    open spec fn view(&self) -> RuleView {
        RuleView { name: self.name@, short: self.short, arity: self.arity }
    }
}

/// What each rule of a sequence is.
pub open spec fn rule_views(rules: Seq<Rule>) -> Seq<RuleView> {
    Seq::new(rules.len(), |i: int| rules[i]@)
}

/// What one round of matching arguments against the rules comes to: the
/// arguments are used up; a value was read; the option of a rule was read
/// with all its parameters, so that the rule is to be applied; or an option
/// matches no rule, or lacks parameters.
#[derive(Debug)]
pub enum Round<'a> {
    Done,
    Value(&'a str),
    Call(usize),
    Unrecognized(&'a str),
    Invalid(&'a str),
    MissingLong(&'a str, u8),
    MissingShort(&'a str, u8, &'a str),
}

/// What a round is.
pub enum RoundView {
    Done,
    Value(Seq<char>),
    Call(int),
    Unrecognized(Seq<char>),
    Invalid(Seq<char>),
    MissingLong(Seq<char>, u8),
    MissingShort(Seq<char>, u8, Seq<char>),
}

impl<'a> View for Round<'a> {
    type V = RoundView;

    open spec fn view(&self) -> RoundView {
        match self {
            Round::Done => RoundView::Done,
            Round::Value(x) => RoundView::Value(x@),
            Round::Call(i) => RoundView::Call(*i as int),
            Round::Unrecognized(x) => RoundView::Unrecognized(x@),
            Round::Invalid(x) => RoundView::Invalid(x@),
            Round::MissingLong(x, n) => RoundView::MissingLong(x@, *n),
            Round::MissingShort(x, n, name) => RoundView::MissingShort(x@, *n, name@),
        }
    }
}

/// The first character of `x`, if it has one.
pub open spec fn first_char(x: Seq<char>) -> Option<char> {
    if x.len() > 0 {
        Some(x[0])
    } else {
        None
    }
}

/// The place of the first rule from `from` on that `wanted` holds of.
pub open spec fn find_rule(rules: Seq<RuleView>, wanted: spec_fn(RuleView) -> bool, from: int)
    -> Option<int>
    decreases rules.len() - from,
{
    if !(0 <= from < rules.len()) {
        None
    } else if wanted(rules[from]) {
        Some(from)
    } else {
        find_rule(rules, wanted, from + 1)
    }
}

/// The next `n` arguments taken as parameters, whatever they look like, and
/// added to `params`; the last part says whether all `n` were there.
pub open spec fn take_params(m: ParseState, n: nat, params: Seq<Seq<char>>) -> (
    ParseState,
    Seq<Seq<char>>,
    bool,
)
    decreases n,
{
    if n == 0 {
        (m, params, true)
    } else {
        match parse_next(m).0 {
            Some(a) => take_params(parse_next(m).1, (n - 1) as nat, params.push(a.text())),
            None => (parse_next(m).1, params, false),
        }
    }
}

/// An option matched against the rule at `found`, if there is one: with its
/// parameters taken it is a call of that rule.
pub open spec fn matched(
    m: ParseState,
    rules: Seq<RuleView>,
    params: Seq<Seq<char>>,
    found: Option<int>,
    unknown: RoundView,
    missing: spec_fn(RuleView) -> RoundView,
) -> (RoundView, ParseState, Seq<Seq<char>>) {
    match found {
        None => (unknown, m, params),
        Some(i) => {
            let taken = take_params(m, rules[i].arity as nat, params);
            (
                if taken.2 {
                    RoundView::Call(i)
                } else {
                    missing(rules[i])
                },
                taken.0,
                taken.1,
            )
        },
    }
}

/// One round: the next argument is read; a value is handed on; a long
/// option is matched by name, a short one by its character, against the
/// first rule that fits, and as many parameters as the rule asks for are
/// taken from the arguments that follow and added to `params`.
pub open spec fn round(m: ParseState, rules: Seq<RuleView>, params: Seq<Seq<char>>) -> (
    RoundView,
    ParseState,
    Seq<Seq<char>>,
) {
    let on = parse_next(m).1;
    match parse_next(m).0 {
        None => (RoundView::Done, on, params),
        Some(ArgView::Value(x)) => (RoundView::Value(x), on, params),
        Some(ArgView::Long(x)) => matched(
            on,
            rules,
            params,
            find_rule(rules, |r: RuleView| r.name == x, 0),
            RoundView::Unrecognized(x),
            |r: RuleView| RoundView::MissingLong(x, r.arity),
        ),
        Some(ArgView::Short(x)) => matched(
            on,
            rules,
            params,
            find_rule(rules, |r: RuleView| r.short == first_char(x), 0),
            RoundView::Invalid(x),
            |r: RuleView| RoundView::MissingShort(x, r.arity, r.name),
        ),
    }
}

fn same_char(a: Option<char>, b: Option<char>) -> (r: bool)
    ensures
        r == (a == b),
{
    match (a, b) {
        (Some(x), Some(y)) => x == y,
        (None, None) => true,
        _ => false,
    }
}

fn take<'a>(parse: &mut Parse<'a>, n: u8, params: &mut Vec<&'a str>) -> (ok: bool)
    requires
        old(parse).wf(),
    ensures
        final(parse).wf(),
        (final(parse)@, texts(final(params)@), ok) == take_params(
            old(parse)@,
            n as nat,
            texts(old(params)@),
        ),
{
    let mut i: u8 = 0;
    while i < n
        invariant
            i <= n,
            parse.wf(),
            take_params(parse@, (n - i) as nat, texts(params@)) == take_params(
                old(parse)@,
                n as nat,
                texts(old(params)@),
            ),
        decreases n - i,
    {
        let ghost before = texts(params@);
        match parse.next() {
            Some(a) => {
                params.push(a.as_str());
                assert(texts(params@) =~= before.push(a@.text()));
            },
            None => {
                return false;
            },
        }
        i += 1;
    }
    true
}

/// One round of matching the arguments against `rules`. Where the answer is
/// a call, the caller applies the rule to `params`, and goes on to the next
/// round if that went well.
pub fn construct<'a>(parse: &mut Parse<'a>, rules: &[Rule<'a>], params: &mut Vec<&'a str>) -> (r:
    Round<'a>)
    requires
        old(parse).wf(),
    ensures
        final(parse).wf(),
        (r@, final(parse)@, texts(final(params)@)) == round(
            old(parse)@,
            rule_views(rules@),
            texts(old(params)@),
        ),
{
    let ghost views = rule_views(rules@);
    let arg = match parse.next() {
        Some(a) => a,
        None => {
            return Round::Done;
        },
    };
    match arg {
        Arg::Value(x) => Round::Value(x),
        Arg::Long(x) => {
            let ghost wanted = |r: RuleView| r.name == x@;
            let mut i: usize = 0;
            while i < rules.len()
                invariant
                    i <= rules.len(),
                    parse.wf(),
                    parse@ == parse_next(old(parse)@).1,
                    parse_next(old(parse)@).0 == Some(ArgView::Long(x@)),
                    params@ == old(params)@,
                    views == rule_views(rules@),
                    wanted == (|r: RuleView| r.name == x@),
                    find_rule(views, wanted, 0) == find_rule(views, wanted, i as int),
                decreases rules.len() - i,
            {
                assert(views[i as int] == rules@[i as int]@);
                if same_text(rules[i].name, x) {
                    let arity = rules[i].arity;
                    return if take(parse, arity, params) {
                        Round::Call(i)
                    } else {
                        Round::MissingLong(x, arity)
                    };
                }
                i += 1;
            }
            Round::Unrecognized(x)
        },
        Arg::Short(x) => {
            let first = if x.unicode_len() > 0 {
                Some(x.get_char(0))
            } else {
                None
            };
            let ghost wanted = |r: RuleView| r.short == first_char(x@);
            let mut i: usize = 0;
            while i < rules.len()
                invariant
                    i <= rules.len(),
                    parse.wf(),
                    parse@ == parse_next(old(parse)@).1,
                    parse_next(old(parse)@).0 == Some(ArgView::Short(x@)),
                    params@ == old(params)@,
                    views == rule_views(rules@),
                    first == first_char(x@),
                    wanted == (|r: RuleView| r.short == first_char(x@)),
                    find_rule(views, wanted, 0) == find_rule(views, wanted, i as int),
                decreases rules.len() - i,
            {
                assert(views[i as int] == rules@[i as int]@);
                if same_char(rules[i].short, first) {
                    let arity = rules[i].arity;
                    let name = rules[i].name;
                    return if take(parse, arity, params) {
                        Round::Call(i)
                    } else {
                        Round::MissingShort(x, arity, name)
                    };
                }
                i += 1;
            }
            Round::Invalid(x)
        },
    }
}

} // verus!
