//! Command-line arguments: a declaration of the arguments a program
//! takes, and the parsing of a command line against it.
//!
//! An argument is written `--name` and is followed by its values, each a
//! token that does not start with `--`.

use vstd::prelude::*;
use vstd::string::*;

verus! {

/// Whether an argument stands alone or is followed by values.
#[derive(Clone, Copy, Debug, PartialEq, Eq, Structural)]
pub enum ArgType {
    Flag,
    Value,
}

/// What an argument holds: nothing, one string, or a list of strings.
#[derive(Debug)]
pub enum ArgValue<'a> {
    Unset,
    Str(&'a str),
    StrVec(Vec<&'a str>),
}

/// What an `ArgValue` holds.
pub enum ArgValueView {
    Unset,
    Str(Seq<char>),
    StrVec(Seq<Seq<char>>),
}

impl<'a> View for ArgValue<'a> {
    type V = ArgValueView;

    open spec fn view(&self) -> ArgValueView {
        match self {
            ArgValue::Unset => ArgValueView::Unset,
            ArgValue::Str(s) => ArgValueView::Str(s@),
            ArgValue::StrVec(v) => ArgValueView::StrVec(Seq::new(v@.len(), |i: int| v@[i]@)),
        }
    }
}

/// One argument: its declaration, and what parsing has found for it.
#[derive(Debug)]
pub struct Arg<'a> {
    name: &'a str,
    arg_type: ArgType,
    default: ArgValue<'a>,
    required: bool,
    multiple: bool,
    consumed: u64,
    value: ArgValue<'a>,
}

/// What an `Arg` holds.
pub struct ArgView {
    pub name: Seq<char>,
    pub arg_type: ArgType,
    pub default: ArgValueView,
    pub required: bool,
    pub multiple: bool,
    pub consumed: u64,
    pub value: ArgValueView,
}

/// Whether `token` starts with `--`.
pub open spec fn is_dashed(token: Seq<char>) -> bool {
    token.len() >= 2 && token[0] == '-' && token[1] == '-'
}

/// Whether `token` names an argument: `--` and at least one more character.
pub open spec fn is_arg_name(token: Seq<char>) -> bool {
    token.len() > 2 && token[0] == '-' && token[1] == '-'
}

/// The number of tokens that an argument which takes values takes from
/// `args` at `pos`: every token up to the next that starts with `--`, but,
/// if it may not repeat, no token once it has taken one.  `consumed` is the
/// number of tokens that it took before.
pub open spec fn run_of_values(multiple: bool, consumed: u64, args: Seq<Seq<char>>, pos: int)
    -> int
    decreases args.len() - pos,
{
    if pos < 0 || pos >= args.len() || is_dashed(args[pos]) || (consumed == 1 && !multiple) {
        0
    } else {
        1 + run_of_values(multiple, (consumed + 1) as u64, args, pos + 1)
    }
}

/// The number of tokens that an argument takes from `args` at `pos`: none
/// for a flag, its run of values otherwise.
pub open spec fn takes(a: ArgView, args: Seq<Seq<char>>, pos: int) -> int {
    if a.arg_type == ArgType::Flag {
        0
    } else {
        run_of_values(a.multiple, a.consumed, args, pos)
    }
}

/// The value of an argument after it has taken the `n` tokens of `args` at
/// `pos`.
pub open spec fn value_after(a: ArgView, args: Seq<Seq<char>>, pos: int, n: int) -> ArgValueView {
    if n <= 0 {
        a.value
    } else if !a.multiple {
        ArgValueView::Str(args[pos + n - 1])
    } else {
        match a.value {
            ArgValueView::StrVec(v) => ArgValueView::StrVec(v + args.subrange(pos, pos + n)),
            _ => ArgValueView::StrVec(args.subrange(pos, pos + n)),
        }
    }
}

impl ArgView {
    /// Why the declaration is refused, if it is: an argument without a
    /// default may be neither a flag nor required, and a flag may not
    /// repeat.
    pub open spec fn spec_error(self) -> Option<Seq<char>> {
        let no_default = self.default is Unset;
        if no_default && self.arg_type == ArgType::Flag {
            Some("Bad spec"@)
        } else if no_default && self.required {
            Some("Bad Spec"@)
        } else if self.multiple && self.arg_type == ArgType::Flag {
            Some("Bad spec"@)
        } else {
            None
        }
    }

    /// The value in force: what was parsed, or the default where nothing
    /// was.
    pub open spec fn value_in_force(self) -> ArgValueView {
        match self.value {
            ArgValueView::Unset => self.default,
            _ => self.value,
        }
    }

    /// The argument after it has taken its tokens from `args` at `pos`.
    pub open spec fn consume(self, args: Seq<Seq<char>>, pos: int) -> ArgView {
        let n = takes(self, args, pos);
        ArgView {
            consumed: (self.consumed + n) as u64,
            value: value_after(self, args, pos, n),
            ..self
        }
    }
}

impl<'a> View for Arg<'a> {
    type V = ArgView;

    closed spec fn view(&self) -> ArgView {
        ArgView {
            name: self.name@,
            arg_type: self.arg_type,
            default: self.default@,
            required: self.required,
            multiple: self.multiple,
            consumed: self.consumed,
            value: self.value@,
        }
    }
}

/// What the command line `args` holds.
pub open spec fn tokens(args: Seq<String>) -> Seq<Seq<char>> {
    Seq::new(args.len(), |i: int| args[i]@)
}

/// Whether `token` starts with `--`.
pub fn starts_with_dashes(token: &str) -> (r: bool)
    ensures
        r == is_dashed(token@),
{
    token.unicode_len() >= 2 && token.get_char(0) == '-' && token.get_char(1) == '-'
}

impl<'a> Arg<'a> {
    /// Validity: a parsed list belongs to an argument that may repeat, a
    /// parsed string to one that may not.
    pub open spec fn wf(&self) -> bool {
        &&& self@.value is StrVec ==> self@.multiple
        &&& self@.value is Str ==> !self@.multiple
    }

    /// A flag named `name`: optional, without default, not yet parsed.
    pub fn with_name(name: &'a str) -> (a: Self)
        ensures
            a.wf(),
            a@ == (ArgView {
                name: name@,
                arg_type: ArgType::Flag,
                default: ArgValueView::Unset,
                required: false,
                multiple: false,
                consumed: 0,
                value: ArgValueView::Unset,
            }),
    {
        Arg {
            name,
            arg_type: ArgType::Flag,
            default: ArgValue::Unset,
            required: false,
            multiple: false,
            consumed: 0,
            value: ArgValue::Unset,
        }
    }

    /// The argument, now followed by a value.
    pub fn takes_value(self) -> (a: Self)
        ensures
            a@ == (ArgView { arg_type: ArgType::Value, ..self@ }),
    {
        let mut a = self;
        a.arg_type = ArgType::Value;
        a
    }

    /// The argument, now with `default` in force where no value is given.
    pub fn default(self, default: &'a str) -> (a: Self)
        ensures
            a@ == (ArgView { default: ArgValueView::Str(default@), ..self@ }),
    {
        let mut a = self;
        a.default = ArgValue::Str(default);
        a
    }

    /// The argument, now required.
    pub fn required(self) -> (a: Self)
        ensures
            a@ == (ArgView { required: true, ..self@ }),
    {
        let mut a = self;
        a.required = true;
        a
    }

    /// The argument, now allowed to take several values.
    pub fn multiple(self) -> (a: Self)
        ensures
            a@ == (ArgView { multiple: true, ..self@ }),
    {
        let mut a = self;
        a.multiple = true;
        a
    }

    /// Checks the declaration of the argument.
    pub fn check_spec(&self) -> (r: Result<(), String>)
        ensures
            match r {
                Ok(_) => self@.spec_error().is_none(),
                Err(msg) => self@.spec_error() == Some(msg@),
            },
    {
        let no_default = match &self.default {
            ArgValue::Unset => true,
            _ => false,
        };
        if no_default && self.arg_type == ArgType::Flag {
            return Err("Bad spec".to_owned());
        }
        if no_default && self.required {
            return Err("Bad Spec".to_owned());
        }
        if self.multiple && self.arg_type == ArgType::Flag {
            return Err("Bad spec".to_owned());
        }
        Ok(())
    }

    /// Takes the values of the argument from the command line `args`,
    /// starting at `pos`; returns the position behind the last token taken.
    /// Fails if the argument takes values and has now none.
    pub fn consume(&mut self, args: &'a Vec<String>, pos: usize) -> (r: Result<usize, String>)
        requires
            old(self).wf(),
            pos <= args.len(),
            old(self)@.consumed + (args.len() - pos) <= u64::MAX,
        ensures
            final(self).wf(),
            final(self)@ == old(self)@.consume(tokens(args@), pos as int),
            match r {
                Ok(next) => next == pos + takes(old(self)@, tokens(args@), pos as int) && (old(
                    self,
                )@.arg_type == ArgType::Flag || final(self)@.consumed > 0),
                Err(msg) => old(self)@.arg_type == ArgType::Value && final(self)@.consumed == 0
                    && msg@ == "No values to parse for: "@ + old(self)@.name,
            },
    {
        let ghost start = self@;
        let ghost toks = tokens(args@);
        if self.arg_type == ArgType::Flag {
            return Ok(pos);
        }
        let mut at: usize = pos;
        while at < args.len()
            invariant
                pos <= at <= args.len(),
                toks == tokens(args@),
                self.wf(),
                start.arg_type == ArgType::Value,
                start.consumed + (args.len() - pos) <= u64::MAX,
                self@ == (ArgView {
                    consumed: (start.consumed + (at - pos)) as u64,
                    value: value_after(start, toks, pos as int, at - pos),
                    ..start
                }),
                takes(start, toks, pos as int) == (at - pos) + takes(self@, toks, at as int),
            ensures
                pos <= at <= args.len(),
                self.wf(),
                self@ == (ArgView {
                    consumed: (start.consumed + (at - pos)) as u64,
                    value: value_after(start, toks, pos as int, at - pos),
                    ..start
                }),
                takes(start, toks, pos as int) == at - pos,
            decreases args.len() - at,
        {
            let token = args[at].as_str();
            assert(toks[at as int] == token@);
            if self.consumed == 1 && !self.multiple {
                break ;
            }
            if starts_with_dashes(token) {
                break ;
            }
            if !self.multiple {
                self.value = ArgValue::Str(token);
            } else {
                let mut values: Vec<&'a str> = Vec::new();
                let mut taken = ArgValue::Unset;
                std::mem::swap(&mut taken, &mut self.value);
                match taken {
                    ArgValue::StrVec(v) => {
                        values = v;
                    },
                    _ => {},
                }
                let ghost had = Seq::new(values@.len(), |i: int| values@[i]@);
                values.push(token);
                assert(Seq::new(values@.len(), |i: int| values@[i]@) =~= had.push(token@));
                self.value = ArgValue::StrVec(values);
                proof {
                    let n = at - pos;
                    assert(toks.subrange(pos as int, pos + n + 1) =~= toks.subrange(
                        pos as int,
                        pos + n,
                    ).push(token@));
                    if n == 0 {
                        assert(toks.subrange(pos as int, pos + 0) =~= Seq::<Seq<char>>::empty());
                        match start.value {
                            ArgValueView::StrVec(v) => {
                                assert(had =~= v);
                            },
                            _ => {
                                assert(had =~= Seq::<Seq<char>>::empty());
                            },
                        }
                    }
                    match start.value {
                        ArgValueView::StrVec(v) => {
                            assert(self@.value == ArgValueView::StrVec(
                                v + toks.subrange(pos as int, pos + n + 1),
                            )) by {
                                assert(had.push(token@) =~= v + toks.subrange(
                                    pos as int,
                                    pos + n + 1,
                                ));
                            }
                        },
                        _ => {
                            assert(had.push(token@) =~= toks.subrange(pos as int, pos + n + 1));
                        },
                    }
                }
            }
            self.consumed = self.consumed + 1;
            at = at + 1;
        }
        if self.consumed == 0 {
            Err(String::from_str("No values to parse for: ").concat(self.name))
        } else {
            Ok(at)
        }
    }

    /// The value in force, as a string.  Fails for a list and where there is
    /// neither a value nor a default.
    pub fn get_str(&self) -> (r: Result<&'a str, String>)
        ensures
            match r {
                Ok(s) => self@.value_in_force() == ArgValueView::Str(s@),
                Err(msg) => !(self@.value_in_force() is Str) && msg@ == "sadge"@,
            },
    {
        let value = match self.value {
            ArgValue::Unset => &self.default,
            _ => &self.value,
        };
        match value {
            ArgValue::Str(s) => Ok(*s),
            _ => Err("sadge".to_owned()),
        }
    }
}

/// Whether two strings hold the same text.
pub fn same_text(a: &str, b: &str) -> (r: bool)
    ensures
        r == (a@ == b@),
{
    a.to_owned() == b.to_owned()
}

/// The declaration of the arguments that a program takes.  No two
/// arguments have the same name.
#[derive(Debug)]
pub struct Parser<'a> {
    args: Vec<Arg<'a>>,
}

impl<'a> View for Parser<'a> {
    type V = Seq<ArgView>;

    closed spec fn view(&self) -> Seq<ArgView> {
        Seq::new(self.args@.len(), |i: int| self.args@[i]@)
    }
}

/// The place of the argument named `name` among `p`, or the length of `p`
/// if there is none.
pub open spec fn position(p: Seq<ArgView>, name: Seq<char>) -> int
    decreases p.len(),
{
    if p.len() == 0 {
        0
    } else if position(p.drop_last(), name) < p.len() - 1 {
        position(p.drop_last(), name)
    } else if p.last().name == name {
        p.len() - 1
    } else {
        p.len() as int
    }
}

/// `position` finds the first argument of that name.
pub proof fn lemma_position(p: Seq<ArgView>, name: Seq<char>)
    ensures
        0 <= position(p, name) <= p.len(),
        position(p, name) < p.len() ==> p[position(p, name)].name == name,
        forall|k: int| 0 <= k < position(p, name) ==> (#[trigger] p[k]).name != name,
    decreases p.len(),
{
    if p.len() > 0 {
        lemma_position(p.drop_last(), name);
        assert forall|k: int| 0 <= k < position(p, name) implies (#[trigger] p[k]).name
            != name by {
            if k < p.len() - 1 {
                assert(p.drop_last()[k] == p[k]);
            }
        }
    }
}

/// The refusal of the first declaration among `p` that is refused, if any
/// is.
pub open spec fn first_spec_error(p: Seq<ArgView>) -> Option<Seq<char>>
    decreases p.len(),
{
    if p.len() == 0 {
        None
    } else {
        match first_spec_error(p.drop_last()) {
            Some(msg) => Some(msg),
            None => p.last().spec_error(),
        }
    }
}

/// The outcome of parsing the command line `args` from `pos` on against
/// the arguments `p`: the arguments with what was found for them, or the
/// message of the first failure.  Each token at which an argument is
/// expected must be `--` and a known name; the argument then takes its
/// values from the tokens that follow.
pub open spec fn parse_from(p: Seq<ArgView>, args: Seq<Seq<char>>, pos: int) -> Result<
    Seq<ArgView>,
    Seq<char>,
>
    decreases args.len() - pos,
{
    if pos < 0 || pos >= args.len() {
        Ok(p)
    } else if !is_arg_name(args[pos]) {
        Err("Arguments must start with '--': "@ + args[pos])
    } else {
        let k = position(p, args[pos].skip(2));
        if k < 0 || k >= p.len() {
            Err("Unrecognized argument: "@ + args[pos])
        } else {
            let taken = takes(p[k], args, pos + 1);
            let after = p[k].consume(args, pos + 1);
            if after.arg_type == ArgType::Value && after.consumed == 0 {
                Err("No values to parse for: "@ + after.name)
            } else {
                proof {
                    lemma_run_of_values(p[k].multiple, p[k].consumed, args, pos + 1);
                }
                parse_from(p.update(k, after), args, pos + 1 + taken)
            }
        }
    }
}

/// A run of values is never negative and never goes beyond the command
/// line.
pub proof fn lemma_run_of_values(multiple: bool, consumed: u64, args: Seq<Seq<char>>, pos: int)
    ensures
        0 <= run_of_values(multiple, consumed, args, pos),
        0 <= pos <= args.len() ==> pos + run_of_values(multiple, consumed, args, pos)
            <= args.len(),
    decreases args.len() - pos,
{
    if !(pos < 0 || pos >= args.len() || is_dashed(args[pos]) || (consumed == 1 && !multiple)) {
        lemma_run_of_values(multiple, (consumed + 1) as u64, args, pos + 1);
    }
}

impl<'a> Parser<'a> {
    /// Validity: every argument is valid and no name occurs twice.
    pub closed spec fn wf(&self) -> bool {
        &&& forall|i: int| 0 <= i < self.args@.len() ==> (#[trigger] self.args@[i]).wf()
        &&& forall|i: int, j: int|
            0 <= i < j < self.args@.len() ==> self.args@[i]@.name != self.args@[j]@.name
    }

    /// A declaration without arguments.
    pub fn new() -> (p: Self)
        ensures
            p.wf(),
            p@ == Seq::<ArgView>::empty(),
    {
        let p = Parser { args: Vec::new() };
        assert(p@ =~= Seq::<ArgView>::empty());
        p
    }

    /// The place of the argument named `name`, if there is one.
    pub fn find(&self, name: &str) -> (r: Option<usize>)
        ensures
            match r {
                Some(k) => k == position(self@, name@) && k < self@.len(),
                None => position(self@, name@) == self@.len(),
            },
    {
        let mut i: usize = 0;
        proof {
            lemma_position(self@, name@);
        }
        while i < self.args.len()
            invariant
                i <= self.args.len(),
                self@.len() == self.args@.len(),
                forall|k: int| 0 <= k < i ==> (#[trigger] self@[k]).name != name@,
            decreases self.args.len() - i,
        {
            if same_text(self.args[i].name, name) {
                proof {
                    assert(self@[i as int].name == name@);
                    lemma_position(self@, name@);
                }
                return Some(i);
            }
            i = i + 1;
        }
        proof {
            lemma_position(self@, name@);
        }
        None
    }

    /// The declaration with `arg` added.  The name of `arg` must be new.
    pub fn arg(self, arg: Arg<'a>) -> (p: Self)
        requires
            self.wf(),
            arg.wf(),
            position(self@, arg@.name) == self@.len(),
        ensures
            p.wf(),
            p@ == self@.push(arg@),
    {
        proof {
            lemma_position(self@, arg@.name);
        }
        let mut p = self;
        p.args.push(arg);
        proof {
            assert(p@ =~= self@.push(arg@));
            assert forall|i: int, j: int| 0 <= i < j < p.args@.len() implies p.args@[i]@.name
                != p.args@[j]@.name by {
                if j == p.args@.len() - 1 {
                    assert(self@[i].name != arg@.name);
                }
            }
        }
        p
    }

    /// The declaration as `f` makes it.
    pub fn apply<F: FnOnce(Self) -> Self>(self, f: F) -> (p: Self)
        requires
            call_requires(f, (self,)),
        ensures
            call_ensures(f, (self,), p),
    {
        f(self)
    }

    /// Checks the declaration of every argument, in the order in which
    /// they were added; fails with the message of the first that is refused.
    pub fn create(self) -> (r: Result<Self, String>)
        ensures
            match r {
                Ok(p) => first_spec_error(self@).is_none() && p == self,
                Err(msg) => first_spec_error(self@) == Some(msg@),
            },
    {
        let mut i: usize = 0;
        proof {
            assert(self@.take(0) =~= Seq::<ArgView>::empty());
        }
        while i < self.args.len()
            invariant
                i <= self.args.len(),
                self@.len() == self.args@.len(),
                first_spec_error(self@.take(i as int)).is_none(),
            decreases self.args.len() - i,
        {
            proof {
                assert(self@.take(i + 1).drop_last() =~= self@.take(i as int));
                assert(self@.take(i + 1).last() == self.args@[i as int]@);
            }
            match self.args[i].check_spec() {
                Ok(_) => {},
                Err(msg) => {
                    proof {
                        lemma_spec_error_prefix(self@, i + 1);
                    }
                    return Err(msg);
                },
            }
            i = i + 1;
        }
        proof {
            assert(self@.take(i as int) =~= self@);
        }
        Ok(self)
    }

    /// Writes the help text, of which there is none, to `writer`.
    pub fn print_help(&self, writer: &mut Vec<u8>)
        ensures
            final(writer)@ == old(writer)@,
    {
    }

    /// Parses the command line `args`, whose first token is the name of the
    /// program, and records what it holds for each argument.
    pub fn parse_args(self, args: &'a Vec<String>) -> (r: Result<Self, String>)
        requires
            self.wf(),
            args.len() >= 1,
            forall|k: int| 0 <= k < self@.len() ==> (#[trigger] self@[k]).consumed + args.len()
                <= u64::MAX,
        ensures
            match r {
                Ok(p) => p.wf() && parse_from(self@, tokens(args@), 1) == Ok::<
                    Seq<ArgView>,
                    Seq<char>,
                >(p@),
                Err(msg) => parse_from(self@, tokens(args@), 1) == Err::<Seq<ArgView>, Seq<char>>(
                    msg@,
                ),
            },
    {
        let ghost toks = tokens(args@);
        let mut p = self;
        let mut pos: usize = 1;
        while pos < args.len()
            invariant
                1 <= pos <= args.len(),
                toks == tokens(args@),
                p.wf(),
                p@.len() == p.args@.len(),
                parse_from(p@, toks, pos as int) == parse_from(self@, toks, 1),
                forall|k: int|
                    0 <= k < p@.len() ==> (#[trigger] p@[k]).consumed + (args.len() - pos)
                        <= u64::MAX,
            decreases args.len() - pos,
        {
            let arg_name = args[pos].as_str();
            assert(toks[pos as int] == arg_name@);
            let named = arg_name.unicode_len() > 2 && arg_name.get_char(0) == '-'
                && arg_name.get_char(1) == '-';
            if !named {
                return Err(String::from_str("Arguments must start with '--': ").concat(arg_name));
            }
            let name = arg_name.substring_char(2, arg_name.unicode_len());
            assert(name@ =~= toks[pos as int].skip(2));
            let k = match p.find(name) {
                Some(k) => k,
                None => {
                    return Err(String::from_str("Unrecognized argument: ").concat(arg_name));
                },
            };
            let ghost before = p@;
            let ghost before_args = p.args@;
            assert(before[k as int] == before_args[k as int]@);
            let mut found = p.args.remove(k);
            let consumed = found.consume(args, pos + 1);
            let ghost after = found@;
            p.args.insert(k, found);
            proof {
                assert(p.args@ =~= before_args.update(k as int, found));
                assert(p@ =~= before.update(k as int, after));
                lemma_run_of_values(
                    before[k as int].multiple,
                    before[k as int].consumed,
                    toks,
                    pos + 1,
                );
            }
            match consumed {
                Ok(next) => {
                    pos = next;
                },
                Err(msg) => {
                    return Err(msg);
                },
            }
        }
        Ok(p)
    }

    /// The value in force of the argument named `arg_name`, as a string.
    pub fn get_str_arg(&self, arg_name: &str) -> (r: Result<&'a str, String>)
        ensures
            match r {
                Ok(s) => position(self@, arg_name@) < self@.len() && self@[position(
                    self@,
                    arg_name@,
                )].value_in_force() == ArgValueView::Str(s@),
                Err(msg) => if position(self@, arg_name@) < self@.len() {
                    !(self@[position(self@, arg_name@)].value_in_force() is Str) && msg@
                        == "sadge"@
                } else {
                    msg@ == "Unrecognized argument: "@ + arg_name@
                },
            },
    {
        match self.find(arg_name) {
            Some(k) => self.args[k].get_str(),
            None => Err(String::from_str("Unrecognized argument: ").concat(arg_name)),
        }
    }
}

/// A refusal found among the first `j` of `p` is the refusal of all of `p`.
pub proof fn lemma_spec_error_prefix(p: Seq<ArgView>, j: int)
    requires
        0 <= j <= p.len(),
        first_spec_error(p.take(j)).is_some(),
    ensures
        first_spec_error(p) == first_spec_error(p.take(j)),
    decreases p.len() - j,
{
    if j < p.len() {
        assert(p.take(j + 1).drop_last() =~= p.take(j));
        lemma_spec_error_prefix(p, j + 1);
    } else {
        assert(p.take(j) =~= p);
    }
}

} // verus!
