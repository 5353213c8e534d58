//! Command-line options: a cursor over the arguments and a parser that hands
//! registered options to their handlers and collects the other arguments.

use vstd::prelude::*;
use vstd::string::*;
use crate::names::StringMap;
use crate::names::views;

verus! {

/// A cursor over a list of arguments.
pub struct ArgExaminer<'a> {
    args: &'a Vec<String>,
    i: usize,
}

impl<'a> ArgExaminer<'a> {
    /// All the arguments, whether the cursor has passed them or not.
    pub closed spec fn all(&self) -> Seq<Seq<char>> {
        views(self.args@)
    }

    /// The position of the cursor among the arguments.
    pub closed spec fn position(&self) -> nat {
        self.i as nat
    }

    /// A cursor over `args` that stands at position `i`.
    pub fn new(args: &'a Vec<String>, i: usize) -> (examiner: ArgExaminer<'a>)
        ensures
            examiner.all() == views(args@),
            examiner.position() == i,
    {
        ArgExaminer { args, i }
    }

    /// The argument `i` places after the cursor, if there is one.
    pub fn peek(&self, i: usize) -> (arg: Option<String>)
        ensures
            arg.is_some() == (self.position() + i < self.all().len()),
            arg matches Some(s) ==> s@ == self.all()[self.position() + i],
    {
        let len = self.args.len();
        if self.i >= len || i >= len - self.i {
            return None;
        }
        Some(self.args[self.i + i].clone())
    }

    /// The argument at the cursor, if there is one; the cursor then moves
    /// past it.
    pub fn pop(&mut self) -> (arg: Option<String>)
        ensures
            final(self).all() == old(self).all(),
            arg.is_some() == (old(self).position() < old(self).all().len()),
            arg matches Some(s) ==> s@ == old(self).all()[old(self).position() as int],
            final(self).position() == if arg.is_some() {
                old(self).position() + 1
            } else {
                old(self).position()
            },
    {
        let ret_val = self.peek(0);
        if self.i < self.args.len() {
            self.i = self.i + 1;
        }
        ret_val
    }

    /// The position of the cursor.
    pub fn index(&self) -> (i: usize)
        ensures
            i == self.position(),
    {
        self.i
    }
}

/// What is done when an option is met.  The handler may change the
/// configuration and may take arguments that follow the option from the
/// cursor.
pub trait OptHandler<T> {
    fn handle(&self, config: &mut T, args: &mut ArgExaminer) -> Result<(), String>;
}

/// A set of options, each with a line of usage and a handler.
#[verifier::reject_recursive_types(T)]
pub struct OptParser<T: 'static> {
    program_name: String,
    usage: StringMap<String>,
    opt_handlers: StringMap<Box<dyn OptHandler<T>>>,
}

/// The arguments `out` are those of `args` at the positions `at`, which
/// rise and lie behind `first`.
pub open spec fn picked(args: Seq<Seq<char>>, first: nat, at: Seq<int>, out: Seq<Seq<char>>) -> bool {
    &&& at.len() == out.len()
    &&& forall|k: int|
        0 <= k < at.len() ==> first < #[trigger] at[k] < args.len() && out[k] == args[at[k]]
    &&& forall|j: int, k: int| 0 <= j < k < at.len() ==> at[j] < at[k]
}

/// The usage text of the options from position `from` on: for each option
/// a line with its name and a line with its description.
pub open spec fn usage_lines(names: Seq<Seq<char>>, texts: Seq<Seq<char>>, from: int) -> Seq<char>
    decreases names.len() - from,
{
    if from < 0 || from >= names.len() {
        Seq::empty()
    } else {
        "  "@ + names[from] + "\n  \t"@ + texts[from] + "\n"@ + usage_lines(names, texts, from + 1)
    }
}

/// The arguments `out` are some of those of `args` behind position `first`,
/// in the order in which they stand there.
pub open spec fn collected(args: Seq<Seq<char>>, first: nat, out: Seq<Seq<char>>) -> bool {
    exists|at: Seq<int>| #[trigger] picked(args, first, at, out)
}

/// The arguments behind position `first`.
pub open spec fn rest(args: Seq<Seq<char>>, first: nat) -> Seq<Seq<char>> {
    if first < args.len() {
        args.skip(first as int + 1)
    } else {
        Seq::empty()
    }
}

/// Where the walk through the arguments goes on after the handler of the
/// option at position `option` has left its cursor at `cursor`: at the
/// cursor, and at least behind the option.
pub fn resume(option: usize, cursor: usize) -> (next: usize)
    requires
        option < usize::MAX,
    ensures
        cursor > option ==> next == cursor,
        cursor <= option ==> next == option + 1,
        next > option,
{
    if cursor > option {
        cursor
    } else {
        option + 1
    }
}

impl<T: 'static> OptParser<T> {
    /// The name of the program, as the usage text shows it.
    pub closed spec fn program_name(&self) -> Seq<char> {
        self.program_name@
    }

    /// The names of the options, in the order in which they were added.
    pub closed spec fn names(&self) -> Seq<Seq<char>> {
        self.usage.keys()
    }

    /// The descriptions of the options, each at the position of its name.
    pub closed spec fn texts(&self) -> Seq<Seq<char>> {
        views(self.usage.values())
    }

    /// True when `name` is an option.
    pub open spec fn is_option(&self, name: Seq<char>) -> bool {
        self.names().contains(name)
    }

    /// True when none of the arguments behind position `first` is an
    /// option.
    pub open spec fn no_option_behind(&self, args: Seq<Seq<char>>, first: nat) -> bool {
        forall|k: int| first < k < args.len() ==> !self.is_option(#[trigger] args[k])
    }

    /// True when none of `args` is an option.
    pub open spec fn no_option_in(&self, args: Seq<Seq<char>>) -> bool {
        forall|k: int| 0 <= k < args.len() ==> !self.is_option(#[trigger] args[k])
    }

    /// The invariant of the parser: each option has a description and a
    /// handler.
    pub closed spec fn wf(&self) -> bool {
        &&& self.usage.wf()
        &&& self.opt_handlers.wf()
        &&& self.usage.keys() == self.opt_handlers.keys()
    }

    pub fn new(program_name: &str) -> (parser: OptParser<T>)
        ensures
            parser.wf(),
            parser.program_name() == program_name@,
            parser.names() == Seq::<Seq<char>>::empty(),
    {
        OptParser {
            program_name: program_name.to_owned(),
            usage: StringMap::new(),
            opt_handlers: StringMap::new(),
        }
    }

    /// The text that explains how the program is called.
    pub fn usage_text(&self) -> (text: String)
        requires
            self.wf(),
        ensures
            text@ == "Usage: "@ + self.program_name() + " [options] <args...>\n\nOptions:\n"@
                + usage_lines(self.names(), self.texts(), 0),
    {
        let mut tail = String::new();
        let mut i: usize = self.usage.len();
        assert(usage_lines(self.names(), self.texts(), i as int) =~= Seq::<char>::empty());
        while i > 0
            invariant
                self.wf(),
                i <= self.names().len(),
                tail@ == usage_lines(self.names(), self.texts(), i as int),
            decreases i,
        {
            i = i - 1;
            let line = "  ".to_owned().concat(self.usage.key_at(i).as_str()).concat(
                "\n  \t",
            ).concat(self.usage.value_at(i).as_str()).concat("\n").concat(tail.as_str());
            tail = line;
            assert(tail@ =~= usage_lines(self.names(), self.texts(), i as int));
        }
        "Usage: ".to_owned().concat(self.program_name.as_str()).concat(
            " [options] <args...>\n\nOptions:\n",
        ).concat(tail.as_str())
    }

    /// Adds the option `arg` with the description `usage`.  An option of
    /// that name that was added before is replaced.
    pub fn opt(&mut self, arg: &str, usage: &str, handler: Box<dyn OptHandler<T>>) -> (parser:
        &mut OptParser<T>)
        requires
            old(self).wf(),
        ensures
            parser.wf(),
            parser.program_name() == old(self).program_name(),
            parser.names() == if old(self).is_option(arg@) {
                old(self).names()
            } else {
                old(self).names().push(arg@)
            },
            parser.is_option(arg@),
            *final(self) == *final(parser),
    {
        self.usage.insert(arg.to_owned(), usage.to_owned());
        self.opt_handlers.insert(arg.to_owned(), handler);
        proof {
            if !old(self).is_option(arg@) {
                assert(self.names()[old(self).names().len() as int] == arg@);
            }
        }
        self
    }

    /// Goes through the arguments behind the first one after the cursor.
    /// An argument that is an option is handed to its handler, with a
    /// cursor behind it from which the handler may take the option's own
    /// arguments; the walk goes on where the handler left that cursor, and
    /// at least behind the option.  Every other argument is collected.  The
    /// first handler that fails ends the walk with its message.
    pub fn parse_arg_examiner(&self, config: &mut T, args: &ArgExaminer) -> (parsed: Result<
        Vec<String>,
        String,
    >)
        requires
            self.wf(),
        ensures
            parsed matches Ok(positional) ==> collected(
                args.all(),
                args.position(),
                views(positional@),
            ),
            parsed matches Ok(positional) ==> self.no_option_in(views(positional@)),
            self.no_option_behind(args.all(), args.position()) ==> *final(config) == *old(config),
            self.no_option_behind(args.all(), args.position()) ==> (parsed matches Ok(positional)
                && views(positional@) == rest(args.all(), args.position())),
    {
        let mut positional_args: Vec<String> = Vec::new();
        let mut i: usize = 1;
        let total = args.args.len();
        let ghost mut at: Seq<int> = Seq::empty();
        let ghost base = args.position();
        let ghost plain = self.no_option_behind(args.all(), base);
        assert(args.all().len() == total);
        loop
            invariant
                self.wf(),
                base == args.position(),
                args.all().len() == total,
                total == args.args@.len(),
                plain == self.no_option_behind(args.all(), base),
                1 <= i,
                picked(args.all(), base, at, views(positional_args@)),
                forall|k: int| 0 <= k < at.len() ==> #[trigger] at[k] < base + i,
                self.no_option_in(views(positional_args@)),
                plain ==> *config == *old(config) && positional_args.len() == i - 1 && (i > 1
                    ==> base + i <= total) && (forall|k: int|
                    0 <= k < positional_args.len() ==> (#[trigger] views(positional_args@)[k])
                        == args.all()[base + 1 + k]),
            ensures
                picked(args.all(), base, at, views(positional_args@)),
                self.no_option_in(views(positional_args@)),
                plain ==> *config == *old(config) && views(positional_args@) == rest(
                    args.all(),
                    base,
                ),
            decreases
                    (if i < total {
                        total - i
                    } else {
                        0
                    }),
        {
            let arg = match args.peek(i) {
                Some(arg) => arg,
                None => {
                    proof {
                        if plain {
                            assert(views(positional_args@) =~= rest(args.all(), base));
                        }
                    }
                    break ;
                },
            };
            match self.opt_handlers.get(arg.as_str()) {
                Some(handler) => {
                    proof {
                        assert(self.is_option(args.all()[base + i]));
                    }
                    let mut arg_examiner = ArgExaminer::new(args.args, i + 1);
                    match handler.handle(config, &mut arg_examiner) {
                        Ok(()) => {},
                        Err(message) => {
                            return Err(message);
                        },
                    }
                    i = resume(i, arg_examiner.i);
                },
                None => {
                    proof {
                        let before = views(positional_args@);
                        at = at.push(base + i);
                        assert(views(positional_args@.push(arg)) =~= before.push(arg@));
                    }
                    positional_args.push(arg);
                    i = i + 1;
                },
            }
        }
        assert(picked(args.all(), args.position(), at, views(positional_args@)));
        Ok(positional_args)
    }

    /// Goes through the arguments behind the first one, which is the name
    /// of the program.
    pub fn parse(&self, config: &mut T, args: &Vec<String>) -> (parsed: Result<Vec<String>, String>)
        requires
            self.wf(),
        ensures
            parsed matches Ok(positional) ==> collected(views(args@), 0, views(positional@)),
            parsed matches Ok(positional) ==> self.no_option_in(views(positional@)),
            self.no_option_behind(views(args@), 0) ==> *final(config) == *old(config),
            self.no_option_behind(views(args@), 0) ==> (parsed matches Ok(positional) && views(
                positional@,
            ) == rest(views(args@), 0)),
    {
        self.parse_arg_examiner(config, &ArgExaminer::new(args, 0))
    }
}

} // verus!
