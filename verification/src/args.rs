//! Command lines.
use vstd::prelude::*;

use crate::numbers;
use crate::numbers::parse_usize;
use crate::text::cat;
use crate::text::same;
use crate::text::Text;

verus! {

/// What the program can be asked to do.
#[derive(Debug, Clone, Copy, PartialEq, Eq, Structural)]
pub enum Command {
    Query,
    Hierarchy,
    Benchmark,
    Serve,
    SyncTypeshed,
}

/// The command of a name.
pub open spec fn command(name: Text) -> Option<Command> {
    if name == "query"@ {
        Some(Command::Query)
    } else if name == "hierarchy"@ {
        Some(Command::Hierarchy)
    } else if name == "benchmark"@ || name == "benchmark-hierarchy"@ {
        Some(Command::Benchmark)
    } else if name == "serve"@ {
        Some(Command::Serve)
    } else if name == "sync-typeshed"@ {
        Some(Command::SyncTypeshed)
    } else {
        None
    }
}

/// The command of a name.
pub fn command_named(name: &str) -> (r: Option<Command>)
    ensures
        r == command(name@),
{
    if same(name, "query") {
        Some(Command::Query)
    } else if same(name, "hierarchy") {
        Some(Command::Hierarchy)
    } else if same(name, "benchmark") || same(name, "benchmark-hierarchy") {
        Some(Command::Benchmark)
    } else if same(name, "serve") {
        Some(Command::Serve)
    } else if same(name, "sync-typeshed") {
        Some(Command::SyncTypeshed)
    } else {
        None
    }
}

/// An option of the command line.
#[derive(Debug, Clone, Copy, PartialEq, Eq, Structural)]
pub enum Flag {
    Root,
    File,
    Class,
    Iterations,
    Warmups,
}

impl Flag {
    /// The name under which errors speak of the option.
    pub open spec fn name(self) -> Text {
        match self {
            Flag::Root => "--root"@,
            Flag::File => "--file"@,
            Flag::Class => "--class"@,
            Flag::Iterations => "--iterations"@,
            Flag::Warmups => "--warmups"@,
        }
    }

    /// The name under which errors speak of the option.
    fn spelled(self) -> (name: &'static str)
        ensures
            name@ == self.name(),
    {
        match self {
            Flag::Root => "--root",
            Flag::File => "--file",
            Flag::Class => "--class",
            Flag::Iterations => "--iterations",
            Flag::Warmups => "--warmups",
        }
    }
}

/// Why a command line is refused.
#[derive(Debug)]
pub enum ArgsError {
    MissingValue(Flag),
    InvalidInteger(Flag),
    Unknown(String),
}

/// What the reason is.
pub enum ArgsErrorView {
    MissingValue(Flag),
    InvalidInteger(Flag),
    Unknown(Text),
}

impl DeepView for ArgsError {
    type V = ArgsErrorView;

    open spec fn deep_view(&self) -> ArgsErrorView {
        match self {
            ArgsError::MissingValue(flag) => ArgsErrorView::MissingValue(*flag),
            ArgsError::InvalidInteger(flag) => ArgsErrorView::InvalidInteger(*flag),
            ArgsError::Unknown(word) => ArgsErrorView::Unknown(word@),
        }
    }
}

impl ArgsErrorView {
    /// What the error is reported as.
    pub open spec fn message(self) -> Text {
        match self {
            ArgsErrorView::MissingValue(flag) => "missing value after "@ + flag.name(),
            ArgsErrorView::InvalidInteger(flag) => "invalid integer for "@ + flag.name(),
            ArgsErrorView::Unknown(word) => "unknown argument: "@ + word,
        }
    }
}

impl ArgsError {
    /// What the error is reported as.
    pub fn message(&self) -> (message: String)
        ensures
            message@ == self.deep_view().message(),
    {
        match self {
            ArgsError::MissingValue(flag) => cat("missing value after ", flag.spelled()),
            ArgsError::InvalidInteger(flag) => cat("invalid integer for ", flag.spelled()),
            ArgsError::Unknown(word) => cat("unknown argument: ", word.as_str()),
        }
    }
}

/// Whether a result is the one expected.
pub open spec fn parsed<T: DeepView>(result: Result<T, ArgsError>, expected: Result<T::V, ArgsErrorView>) -> bool {
    match result {
        Ok(value) => expected == Ok::<T::V, ArgsErrorView>(value.deep_view()),
        Err(error) => expected == Err::<T::V, ArgsErrorView>(error.deep_view()),
    }
}

/// The options of `query` and `hierarchy`.
#[derive(Debug)]
pub struct QueryArgs {
    pub root: Option<String>,
    pub file: Option<String>,
    pub class_name: Option<String>,
    pub pretty: bool,
    pub debug: bool,
}

/// What the options of `query` and `hierarchy` are.
pub struct QueryArgsView {
    pub root: Option<Text>,
    pub file: Option<Text>,
    pub class_name: Option<Text>,
    pub pretty: bool,
    pub debug: bool,
}

impl DeepView for QueryArgs {
    type V = QueryArgsView;

    open spec fn deep_view(&self) -> QueryArgsView {
        QueryArgsView {
            root: self.root.deep_view(),
            file: self.file.deep_view(),
            class_name: self.class_name.deep_view(),
            pretty: self.pretty,
            debug: self.debug,
        }
    }
}

/// Whether a word is an option that names a class.
pub open spec fn names_class(word: Text) -> bool {
    word == "--class"@ || word == "--symbol_name"@
}

/// The option that a word of the `query` command line is, where it takes a value.
pub open spec fn query_flag(word: Text) -> Option<Flag> {
    if word == "--root"@ {
        Some(Flag::Root)
    } else if word == "--file"@ {
        Some(Flag::File)
    } else if names_class(word) {
        Some(Flag::Class)
    } else {
        None
    }
}

/// The options, with a value given to one of them.
pub open spec fn with_text(given: QueryArgsView, flag: Flag, value: Text) -> QueryArgsView {
    match flag {
        Flag::Root => QueryArgsView { root: Some(value), ..given },
        Flag::File => QueryArgsView { file: Some(value), ..given },
        _ => QueryArgsView { class_name: Some(value), ..given },
    }
}

/// The options after the words that are left, given those before them. A later option overrides
/// an earlier one.
pub open spec fn query_args_from(words: Seq<Text>, given: QueryArgsView) -> Result<QueryArgsView, ArgsErrorView>
    decreases words.len(),
{
    if words.len() == 0 {
        Ok(given)
    } else if words[0] == "--pretty"@ {
        query_args_from(words.skip(1), QueryArgsView { pretty: true, ..given })
    } else if words[0] == "--debug"@ {
        query_args_from(words.skip(1), QueryArgsView { debug: true, ..given })
    } else {
        match query_flag(words[0]) {
            None => Err(ArgsErrorView::Unknown(words[0])),
            Some(flag) => if words.len() < 2 {
                Err(ArgsErrorView::MissingValue(flag))
            } else {
                query_args_from(words.skip(2), with_text(given, flag, words[1]))
            },
        }
    }
}

/// The options of `query` and `hierarchy` in a command line.
pub open spec fn query_args(words: Seq<Text>) -> Result<QueryArgsView, ArgsErrorView> {
    query_args_from(
        words,
        QueryArgsView { root: None, file: None, class_name: None, pretty: false, debug: false },
    )
}

/// The options of `query` and `hierarchy` in a command line.
pub fn parse_query_args(args: &Vec<String>) -> (result: Result<QueryArgs, ArgsError>)
    ensures
        parsed(result, query_args(args.deep_view())),
{
    let ghost words = args.deep_view();
    let mut given = QueryArgs {
        root: None,
        file: None,
        class_name: None,
        pretty: false,
        debug: false,
    };
    let mut i: usize = 0;
    assert(words.skip(0) =~= words);
    while i < args.len()
        invariant
            i <= args@.len(),
            words == args.deep_view(),
            query_args_from(words.skip(i as int), given.deep_view()) == query_args(words),
        decreases args@.len() - i,
    {
        let ghost rest = words.skip(i as int);
        assert(rest[0] == args@[i as int]@);
        assert(rest.skip(1) =~= words.skip(i as int + 1));
        let word = args[i].as_str();
        if same(word, "--pretty") {
            given.pretty = true;
            i = i + 1;
        } else if same(word, "--debug") {
            given.debug = true;
            i = i + 1;
        } else {
            let flag = if same(word, "--root") {
                Flag::Root
            } else if same(word, "--file") {
                Flag::File
            } else if same(word, "--class") || same(word, "--symbol_name") {
                Flag::Class
            } else {
                return Err(ArgsError::Unknown(args[i].clone()));
            };
            if i + 1 >= args.len() {
                return Err(ArgsError::MissingValue(flag));
            }
            assert(rest[1] == args@[i + 1]@);
            assert(rest.skip(2) =~= words.skip(i as int + 2));
            let value = Some(args[i + 1].clone());
            match flag {
                Flag::Root => {
                    given.root = value;
                },
                Flag::File => {
                    given.file = value;
                },
                _ => {
                    given.class_name = value;
                },
            }
            i = i + 2;
        }
    }
    assert(words.skip(i as int) =~= Seq::<Text>::empty());
    Ok(given)
}

/// The options of `benchmark`.
#[derive(Debug)]
pub struct BenchmarkArgs {
    pub root: Option<String>,
    pub file: Option<String>,
    pub class_name: Option<String>,
    pub pretty: bool,
    pub iterations: usize,
    pub warmups: usize,
}

/// What the options of `benchmark` are.
pub struct BenchmarkArgsView {
    pub root: Option<Text>,
    pub file: Option<Text>,
    pub class_name: Option<Text>,
    pub pretty: bool,
    pub iterations: usize,
    pub warmups: usize,
}

impl DeepView for BenchmarkArgs {
    type V = BenchmarkArgsView;

    open spec fn deep_view(&self) -> BenchmarkArgsView {
        BenchmarkArgsView {
            root: self.root.deep_view(),
            file: self.file.deep_view(),
            class_name: self.class_name.deep_view(),
            pretty: self.pretty,
            iterations: self.iterations,
            warmups: self.warmups,
        }
    }
}

/// The option that a word of the `benchmark` command line is, where it takes a value.
pub open spec fn benchmark_flag(word: Text) -> Option<Flag> {
    if word == "--root"@ {
        Some(Flag::Root)
    } else if word == "--file"@ {
        Some(Flag::File)
    } else if names_class(word) {
        Some(Flag::Class)
    } else if word == "--iterations"@ {
        Some(Flag::Iterations)
    } else if word == "--warmups"@ {
        Some(Flag::Warmups)
    } else {
        None
    }
}

/// The options, with a value given to one of them.
pub open spec fn with_value(given: BenchmarkArgsView, flag: Flag, value: Text) -> Result<BenchmarkArgsView, ArgsErrorView> {
    match flag {
        Flag::Root => Ok(BenchmarkArgsView { root: Some(value), ..given }),
        Flag::File => Ok(BenchmarkArgsView { file: Some(value), ..given }),
        Flag::Class => Ok(BenchmarkArgsView { class_name: Some(value), ..given }),
        Flag::Iterations => match numbers::usize_in(value) {
            Some(n) => Ok(BenchmarkArgsView { iterations: n, ..given }),
            None => Err(ArgsErrorView::InvalidInteger(flag)),
        },
        Flag::Warmups => match numbers::usize_in(value) {
            Some(n) => Ok(BenchmarkArgsView { warmups: n, ..given }),
            None => Err(ArgsErrorView::InvalidInteger(flag)),
        },
    }
}

/// The options after the words that are left, given those before them.
pub open spec fn benchmark_args_from(words: Seq<Text>, given: BenchmarkArgsView) -> Result<BenchmarkArgsView, ArgsErrorView>
    decreases words.len(),
{
    if words.len() == 0 {
        Ok(given)
    } else if words[0] == "--pretty"@ {
        benchmark_args_from(words.skip(1), BenchmarkArgsView { pretty: true, ..given })
    } else {
        match benchmark_flag(words[0]) {
            None => Err(ArgsErrorView::Unknown(words[0])),
            Some(flag) => if words.len() < 2 {
                Err(ArgsErrorView::MissingValue(flag))
            } else {
                match with_value(given, flag, words[1]) {
                    Err(error) => Err(error),
                    Ok(next) => benchmark_args_from(words.skip(2), next),
                }
            },
        }
    }
}

/// The options of `benchmark` in a command line: a hundred iterations after ten to warm up, unless
/// it says otherwise.
pub open spec fn benchmark_args(words: Seq<Text>) -> Result<BenchmarkArgsView, ArgsErrorView> {
    benchmark_args_from(
        words,
        BenchmarkArgsView {
            root: None,
            file: None,
            class_name: None,
            pretty: false,
            iterations: 100,
            warmups: 10,
        },
    )
}

/// The option that a word of the `benchmark` command line is, where it takes a value.
fn benchmark_flag_of(word: &str) -> (flag: Option<Flag>)
    ensures
        flag == benchmark_flag(word@),
{
    if same(word, "--root") {
        Some(Flag::Root)
    } else if same(word, "--file") {
        Some(Flag::File)
    } else if same(word, "--class") || same(word, "--symbol_name") {
        Some(Flag::Class)
    } else if same(word, "--iterations") {
        Some(Flag::Iterations)
    } else if same(word, "--warmups") {
        Some(Flag::Warmups)
    } else {
        None
    }
}

/// The options of `benchmark` in a command line.
pub fn parse_benchmark_args(args: &Vec<String>) -> (result: Result<BenchmarkArgs, ArgsError>)
    ensures
        parsed(result, benchmark_args(args.deep_view())),
{
    let ghost words = args.deep_view();
    let mut given = BenchmarkArgs {
        root: None,
        file: None,
        class_name: None,
        pretty: false,
        iterations: 100,
        warmups: 10,
    };
    let mut i: usize = 0;
    assert(words.skip(0) =~= words);
    while i < args.len()
        invariant
            i <= args@.len(),
            words == args.deep_view(),
            benchmark_args_from(words.skip(i as int), given.deep_view()) == benchmark_args(words),
        decreases args@.len() - i,
    {
        let ghost rest = words.skip(i as int);
        assert(rest[0] == args@[i as int]@);
        assert(rest.skip(1) =~= words.skip(i as int + 1));
        let word = args[i].as_str();
        if same(word, "--pretty") {
            given.pretty = true;
            i = i + 1;
        } else {
            let flag = match benchmark_flag_of(word) {
                Some(flag) => flag,
                None => {
                    return Err(ArgsError::Unknown(args[i].clone()));
                },
            };
            if i + 1 >= args.len() {
                return Err(ArgsError::MissingValue(flag));
            }
            assert(rest[1] == args@[i + 1]@);
            assert(rest.skip(2) =~= words.skip(i as int + 2));
            let value = &args[i + 1];
            match flag {
                Flag::Root => {
                    given.root = Some(value.clone());
                },
                Flag::File => {
                    given.file = Some(value.clone());
                },
                Flag::Class => {
                    given.class_name = Some(value.clone());
                },
                Flag::Iterations => {
                    match parse_usize(value.as_str()) {
                        Some(n) => {
                            given.iterations = n;
                        },
                        None => {
                            return Err(ArgsError::InvalidInteger(flag));
                        },
                    }
                },
                Flag::Warmups => {
                    match parse_usize(value.as_str()) {
                        Some(n) => {
                            given.warmups = n;
                        },
                        None => {
                            return Err(ArgsError::InvalidInteger(flag));
                        },
                    }
                },
            }
            i = i + 2;
        }
    }
    assert(words.skip(i as int) =~= Seq::<Text>::empty());
    Ok(given)
}

/// The options of `serve`.
#[derive(Debug)]
pub struct ServeArgs {
    pub root: Option<String>,
}

impl DeepView for ServeArgs {
    type V = Option<Text>;

    open spec fn deep_view(&self) -> Option<Text> {
        self.root.deep_view()
    }
}

/// The root after the words that are left, given the one before them.
pub open spec fn serve_root_from(words: Seq<Text>, given: Option<Text>) -> Result<Option<Text>, ArgsErrorView>
    decreases words.len(),
{
    if words.len() == 0 {
        Ok(given)
    } else if words[0] != "--root"@ {
        Err(ArgsErrorView::Unknown(words[0]))
    } else if words.len() < 2 {
        Err(ArgsErrorView::MissingValue(Flag::Root))
    } else {
        serve_root_from(words.skip(2), Some(words[1]))
    }
}

/// The options of `serve` in a command line.
pub fn parse_serve_args(args: &Vec<String>) -> (result: Result<ServeArgs, ArgsError>)
    ensures
        parsed(result, serve_root_from(args.deep_view(), None)),
{
    let ghost words = args.deep_view();
    let mut given = ServeArgs { root: None };
    let mut i: usize = 0;
    assert(words.skip(0) =~= words);
    while i < args.len()
        invariant
            i <= args@.len(),
            words == args.deep_view(),
            serve_root_from(words.skip(i as int), given.deep_view()) == serve_root_from(words, None),
        decreases args@.len() - i,
    {
        let ghost rest = words.skip(i as int);
        assert(rest[0] == args@[i as int]@);
        if !same(args[i].as_str(), "--root") {
            return Err(ArgsError::Unknown(args[i].clone()));
        }
        if i + 1 >= args.len() {
            return Err(ArgsError::MissingValue(Flag::Root));
        }
        assert(rest[1] == args@[i + 1]@);
        assert(rest.skip(2) =~= words.skip(i as int + 2));
        given.root = Some(args[i + 1].clone());
        i = i + 2;
    }
    assert(words.skip(i as int) =~= Seq::<Text>::empty());
    Ok(given)
}

} // verus!
