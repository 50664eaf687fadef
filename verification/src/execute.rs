//! What a run is started with.

use vstd::prelude::*;
use vstd::string::StrSliceExecFns;

use crate::naming::{decimal, digit_value, law_number_said, said};

verus! {

/// The parameters of a run.
#[derive(Clone, Copy, Debug, PartialEq, Eq, Structural)]
pub struct Params {
    /// How many rounds to run.
    pub rounds: i64,
    /// How much data a round has.
    pub data: i64,
    /// How many operators there are.
    pub operators: i64,
}

/// What is wrong with the arguments of a run.
#[derive(Clone, Copy, Debug, PartialEq, Eq, Structural)]
pub enum ParamsError {
    /// The argument at this position is missing.
    Missing(usize),
    /// The argument at this position is not a number.
    Invalid(usize),
}

/// Bytes of shared memory for each processor.
pub const SIZE: usize = 0x1000;

/// Whether `c` is a decimal digit.
pub open spec fn is_digit(c: char) -> bool {
    '0' <= c && c <= '9'
}

/// The number that the digits `s` make.
pub open spec fn digits_value(s: Seq<char>) -> int
    decreases s.len(),
{
    if s.len() == 0 {
        0
    } else {
        10 * digits_value(s.drop_last()) + (s.last() as int - '0' as int)
    }
}

/// Whether `s` is made of digits, at least one.
pub open spec fn is_digits(s: Seq<char>) -> bool {
    &&& s.len() > 0
    &&& forall|i: int| 0 <= i < s.len() ==> is_digit(#[trigger] s[i])
}

/// The number that `s` says, of those that fit: digits, with or without a sign.
pub open spec fn number_in(s: Seq<char>) -> Option<i64> {
    let signed = s.len() > 0 && (s[0] == '-' || s[0] == '+');
    let digits = if signed {
        s.skip(1)
    } else {
        s
    };
    let value = if signed && s[0] == '-' {
        -digits_value(digits)
    } else {
        digits_value(digits)
    };
    if is_digits(digits) && i64::MIN <= value <= i64::MAX {
        Some(value as i64)
    } else {
        None
    }
}

/// More digits make no smaller a number.
proof fn lemma_value_grows(s: Seq<char>, n: int)
    requires
        0 <= n <= s.len(),
        forall|i: int| 0 <= i < s.len() ==> is_digit(#[trigger] s[i]),
    ensures
        0 <= digits_value(s.take(n)) <= digits_value(s),
    decreases s.len(),
{
    if s.len() == 0 {
        assert(s.take(n) =~= s);
    } else if n == s.len() {
        assert(s.take(n) =~= s);
        let before = s.drop_last();
        assert forall|i: int| 0 <= i < before.len() implies is_digit(#[trigger] before[i]) by {
            assert(before[i] == s[i]);
        }
        lemma_value_grows(before, before.len() as int);
        assert(before.take(before.len() as int) =~= before);
        assert(is_digit(s[s.len() - 1]));
    } else {
        let before = s.drop_last();
        assert forall|i: int| 0 <= i < before.len() implies is_digit(#[trigger] before[i]) by {
            assert(before[i] == s[i]);
        }
        lemma_value_grows(before, n);
        assert(before.take(n) =~= s.take(n));
        assert(is_digit(s[s.len() - 1]));
    }
}

/// The number that `text` says.
pub fn parse_number(text: &str) -> (r: Option<i64>)
    ensures
        r == number_in(text@),
{
    let ghost s = text@;
    let length: usize = text.unicode_len();
    if length == 0 {
        return None;
    }
    let first: char = text.get_char(0);
    let negative = first == '-';
    let from: usize = if negative || first == '+' {
        1
    } else {
        0
    };
    let ghost digits = if from == 1 {
        s.skip(1)
    } else {
        s
    };
    assert(s.skip(0) =~= s);
    if length == from {
        return None;
    }
    let limit: i128 = 0x8000_0000_0000_0000;
    let mut value: i128 = 0;
    let mut i: usize = from;
    assert(digits.take(0) =~= Seq::<char>::empty());
    while i < length
        invariant
            from <= i <= length,
            from <= 1,
            length == s.len(),
            s == text@,
            digits == s.skip(from as int),
            limit == 0x8000_0000_0000_0000,
            0 <= value <= limit,
            value == digits_value(digits.take(i - from)),
            forall|k: int| 0 <= k < i - from ==> is_digit(#[trigger] digits[k]),
            negative == (s[0] == '-'),
            from == (if s[0] == '-' || s[0] == '+' {
                1int
            } else {
                0int
            }),
            digits.len() > 0,
        decreases length - i,
    {
        let c: char = text.get_char(i);
        let ghost k = i - from;
        assert(digits[k] == c);
        if c < '0' || c > '9' {
            assert(s.skip(0) =~= s);
            assert(!is_digit(digits[k]));
            return None;
        }
        assert(digits.take(k + 1).drop_last() =~= digits.take(k));
        assert(digits.take(k + 1).last() == c);
        value = 10 * value + (c as u32 - '0' as u32) as i128;
        if value > limit {
            proof {
                assert(s.skip(0) =~= s);
                if is_digits(digits) {
                    lemma_value_grows(digits, k + 1);
                }
            }
            return None;
        }
        i += 1;
    }
    assert(digits.take(i - from) =~= digits);
    if negative {
        Some((-value) as i64)
    } else if value < limit {
        Some(value as i64)
    } else {
        None
    }
}

/// An option of a run. Its value is the argument behind it.
#[derive(Clone, Copy, Debug, PartialEq, Eq, Structural)]
pub enum RunOption {
    /// `-w`, `--workers`: number of worker threads of each process.
    Workers,
    /// `-n`, `--processes`: number of processes.
    Processes,
    /// `-p`, `--process`: identity of this process.
    Process,
    /// `-h`, `--hostfile`: a file that tells where each process is.
    Hostfile,
}

/// The option that an argument names.
pub open spec fn option_named(text: Seq<char>) -> Option<RunOption> {
    if text == "-w"@ || text == "--workers"@ {
        Some(RunOption::Workers)
    } else if text == "-n"@ || text == "--processes"@ {
        Some(RunOption::Processes)
    } else if text == "-p"@ || text == "--process"@ {
        Some(RunOption::Process)
    } else if text == "-h"@ || text == "--hostfile"@ {
        Some(RunOption::Hostfile)
    } else {
        None
    }
}

/// Where the parameters are among `args`, from `from` on: options and their values are none.
pub open spec fn parameter_places(args: Seq<String>, from: int) -> Seq<int>
    decreases args.len() + 1 - from,
{
    if from >= args.len() {
        Seq::empty()
    } else if option_named(args[from]@) is Some {
        parameter_places(args, from + 2)
    } else {
        seq![from] + parameter_places(args, from + 1)
    }
}

/// Where the value of the first `option` among `args` belongs, from `from` on. Behind the last
/// argument it is missing.
pub open spec fn value_place(args: Seq<String>, from: int, option: RunOption) -> Option<int>
    decreases args.len() + 1 - from,
{
    if from >= args.len() {
        None
    } else {
        match option_named(args[from]@) {
            Some(named) => if named == option {
                Some(from + 1)
            } else {
                value_place(args, from + 2, option)
            },
            None => value_place(args, from + 1, option),
        }
    }
}

/// What parameter `k` says: zero where it is absent.
pub open spec fn parameter(args: Seq<String>, k: int) -> Result<i64, ParamsError> {
    let places = parameter_places(args, 1);
    if places.len() <= k {
        Ok(0)
    } else {
        match number_in(args[places[k]]@) {
            Some(n) => Ok(n),
            None => Err(ParamsError::Invalid(places[k] as usize)),
        }
    }
}

/// The parameters that the arguments of a program give.
pub open spec fn params_in(args: Seq<String>) -> Result<Params, ParamsError> {
    match (parameter(args, 0), parameter(args, 1), parameter(args, 2)) {
        (Err(e), _, _) => Err(e),
        (_, Err(e), _) => Err(e),
        (_, _, Err(e)) => Err(e),
        (Ok(rounds), Ok(data), Ok(operators)) => Ok(Params { rounds, data, operators }),
    }
}

/// The number that `option` gives, or `default` where it is absent.
pub open spec fn option_number(args: Seq<String>, option: RunOption, default: usize) -> Result<
    usize,
    ParamsError,
> {
    match value_place(args, 1, option) {
        None => Ok(default),
        Some(place) => if place >= args.len() {
            Err(ParamsError::Missing(place as usize))
        } else {
            match number_in(args[place]@) {
                Some(n) => if 0 <= n <= usize::MAX {
                    Ok(n as usize)
                } else {
                    Err(ParamsError::Invalid(place as usize))
                },
                None => Err(ParamsError::Invalid(place as usize)),
            }
        },
    }
}

/// The option that an argument names.
fn read_option(text: &String) -> (r: Option<RunOption>)
    ensures
        r == option_named(text@),
{
    if *text == "-w".to_string() || *text == "--workers".to_string() {
        Some(RunOption::Workers)
    } else if *text == "-n".to_string() || *text == "--processes".to_string() {
        Some(RunOption::Processes)
    } else if *text == "-p".to_string() || *text == "--process".to_string() {
        Some(RunOption::Process)
    } else if *text == "-h".to_string() || *text == "--hostfile".to_string() {
        Some(RunOption::Hostfile)
    } else {
        None
    }
}

/// Where the parameters are.
fn find_parameters(args: &Vec<String>) -> (r: Vec<usize>)
    ensures
        r@.len() == parameter_places(args@, 1).len(),
        forall|k: int|
            0 <= k < r@.len() ==> (#[trigger] r@[k]) < args@.len() && r@[k] == parameter_places(
                args@,
                1,
            )[k],
{
    let ghost goal = parameter_places(args@, 1);
    let mut r: Vec<usize> = Vec::new();
    let mut i: usize = 1;
    while i < args.len()
        invariant
            goal == parameter_places(args@, 1),
            goal.len() == r@.len() + parameter_places(args@, i as int).len(),
            goal.skip(r@.len() as int) == parameter_places(args@, i as int),
            forall|k: int|
                0 <= k < r@.len() ==> (#[trigger] r@[k]) < args@.len() && r@[k] == goal[k],
        decreases args.len() - i,
    {
        let ghost before = parameter_places(args@, i as int);
        assert(i + 1 >= args.len() ==> parameter_places(args@, i + 2) == parameter_places(
            args@,
            args@.len() as int,
        ));
        match read_option(&args[i]) {
            Some(_) => {
                if i + 1 < args.len() {
                    i += 2;
                } else {
                    i = args.len();
                }
            },
            None => {
                let ghost n = r@.len();
                assert(goal.skip(n as int)[0] == i);
                assert(goal[n as int] == i);
                r.push(i);
                i += 1;
                assert(goal.skip(r@.len() as int) =~= before.skip(1));
                assert(before.skip(1) =~= parameter_places(args@, i as int));
            },
        }
    }
    r
}

/// Where the value of the first `option` belongs.
fn find_value(args: &Vec<String>, option: RunOption) -> (r: Option<usize>)
    ensures
        match r {
            Some(place) => place <= args@.len() && value_place(args@, 1, option) == Some(
                place as int,
            ),
            None => value_place(args@, 1, option) is None,
        },
{
    let mut i: usize = 1;
    while i < args.len()
        invariant
            value_place(args@, 1, option) == value_place(args@, i as int, option),
        decreases args.len() - i,
    {
        assert(i + 1 >= args.len() ==> value_place(args@, i + 2, option) == value_place(
            args@,
            args@.len() as int,
            option,
        ));
        match read_option(&args[i]) {
            Some(named) => {
                if named == option {
                    return Some(i + 1);
                }
                if i + 1 < args.len() {
                    i += 2;
                } else {
                    i = args.len();
                }
            },
            None => {
                i += 1;
            },
        }
    }
    None
}

/// What parameter `k` says, where `places` tells where the parameters are.
fn read_parameter(args: &Vec<String>, places: &Vec<usize>, k: usize) -> (r: Result<
    i64,
    ParamsError,
>)
    requires
        places@.len() == parameter_places(args@, 1).len(),
        forall|i: int|
            0 <= i < places@.len() ==> (#[trigger] places@[i]) < args@.len() && places@[i]
                == parameter_places(args@, 1)[i],
    ensures
        r == parameter(args@, k as int),
{
    if places.len() <= k {
        return Ok(0);
    }
    let at: usize = places[k];
    match parse_number(args[at].as_str()) {
        Some(n) => Ok(n),
        None => Err(ParamsError::Invalid(at)),
    }
}

/// The number that `option` gives.
fn read_option_number(args: &Vec<String>, option: RunOption, default: usize) -> (r: Result<
    usize,
    ParamsError,
>)
    ensures
        r == option_number(args@, option, default),
{
    let place: usize = match find_value(args, option) {
        Some(place) => place,
        None => {
            return Ok(default);
        },
    };
    if place >= args.len() {
        return Err(ParamsError::Missing(place));
    }
    match parse_number(args[place].as_str()) {
        Some(n) => {
            if n >= 0 && n as u64 <= usize::MAX as u64 {
                Ok(n as usize)
            } else {
                Err(ParamsError::Invalid(place))
            }
        },
        None => Err(ParamsError::Invalid(place)),
    }
}

/// The workers that a run takes.
pub struct Configuration {
    /// Worker threads of each process.
    pub workers: usize,
    /// Processes.
    pub processes: usize,
    /// Identity of this process.
    pub process: usize,
    /// A file that tells where each process is.
    pub hostfile: Option<String>,
}

/// The file that the arguments name.
pub open spec fn hostfile_in(args: Seq<String>) -> Result<Option<Seq<char>>, ParamsError> {
    match value_place(args, 1, RunOption::Hostfile) {
        None => Ok(None),
        Some(place) => if place >= args.len() {
            Err(ParamsError::Missing(place as usize))
        } else {
            Ok(Some(args[place]@))
        },
    }
}

/// Whether `r` is what the options among the arguments of a program ask for: one worker thread
/// in one process, unless they say otherwise. Of several errors the first counts, where the
/// threads come first, then the processes, the identity and the file.
pub open spec fn configured(args: Seq<String>, r: Result<Configuration, ParamsError>) -> bool {
    match (
        option_number(args, RunOption::Workers, 1),
        option_number(args, RunOption::Processes, 1),
        option_number(args, RunOption::Process, 0),
        hostfile_in(args),
    ) {
        (Err(e), _, _, _) => r == Err::<Configuration, ParamsError>(e),
        (_, Err(e), _, _) => r == Err::<Configuration, ParamsError>(e),
        (_, _, Err(e), _) => r == Err::<Configuration, ParamsError>(e),
        (_, _, _, Err(e)) => r == Err::<Configuration, ParamsError>(e),
        (Ok(workers), Ok(processes), Ok(process), Ok(hostfile)) => match r {
            Ok(c) => {
                &&& c.workers == workers
                &&& c.processes == processes
                &&& c.process == process
                &&& match (c.hostfile, hostfile) {
                    (Some(name), Some(text)) => name@ == text,
                    (None, None) => true,
                    _ => false,
                }
            },
            Err(_) => false,
        },
    }
}

impl Configuration {
    /// The workers that the options among the arguments of a program ask for. The name of the
    /// program comes before the arguments.
    pub fn from_args(args: &Vec<String>) -> (r: Result<Configuration, ParamsError>)
        ensures
            configured(args@, r),
    {
        let workers: usize = match read_option_number(args, RunOption::Workers, 1) {
            Ok(n) => n,
            Err(e) => {
                return Err(e);
            },
        };
        let processes: usize = match read_option_number(args, RunOption::Processes, 1) {
            Ok(n) => n,
            Err(e) => {
                return Err(e);
            },
        };
        let process: usize = match read_option_number(args, RunOption::Process, 0) {
            Ok(n) => n,
            Err(e) => {
                return Err(e);
            },
        };
        let hostfile: Option<String> = match find_value(args, RunOption::Hostfile) {
            Some(place) => {
                if place >= args.len() {
                    return Err(ParamsError::Missing(place));
                }
                Some(args[place].clone())
            },
            None => None,
        };
        Ok(Configuration { workers, processes, process, hostfile })
    }
}

impl Params {
    /// The parameters of a run that needs none.
    pub fn none() -> (r: Self)
        ensures
            r == (Params { rounds: 0, data: 0, operators: 0 }),
    {
        Params { rounds: 0, data: 0, operators: 0 }
    }

    /// The parameters that the arguments of a program give: the first three that are neither
    /// options nor their values, and zero for each that is absent. The name of the program comes
    /// before them.
    pub fn from_args(args: &Vec<String>) -> (r: Result<Params, ParamsError>)
        ensures
            r == params_in(args@),
    {
        let places = find_parameters(args);
        let rounds: i64 = match read_parameter(args, &places, 0) {
            Ok(n) => n,
            Err(e) => {
                return Err(e);
            },
        };
        let data: i64 = match read_parameter(args, &places, 1) {
            Ok(n) => n,
            Err(e) => {
                return Err(e);
            },
        };
        let operators: i64 = match read_parameter(args, &places, 2) {
            Ok(n) => n,
            Err(e) => {
                return Err(e);
            },
        };
        Ok(Params { rounds, data, operators })
    }

    /// How many bytes each buffer of the device takes: eight for each piece of data, and one
    /// more line.
    pub fn buffer_size(&self) -> (r: i64)
        requires
            i64::MIN <= self.data * 8 + 64 <= i64::MAX,
            i64::MIN <= self.data * 8 <= i64::MAX,
        ensures
            r == self.data * 8 + 64,
    {
        self.data * 8 + 64
    }
}

/// Arguments without parameters, options and their values alone, ask for no parameters, and
/// are no error.
pub proof fn law_options_are_no_parameters(args: Seq<String>)
    requires
        forall|i: int|
            1 <= i < args.len() && i % 2 == 1 ==> option_named((#[trigger] args[i])@) is Some,
    ensures
        params_in(args) == Ok::<Params, ParamsError>(Params { rounds: 0, data: 0, operators: 0 }),
{
    lemma_only_options(args, 1);
}

proof fn lemma_only_options(args: Seq<String>, from: int)
    requires
        1 <= from,
        from % 2 == 1,
        forall|i: int|
            1 <= i < args.len() && i % 2 == 1 ==> option_named((#[trigger] args[i])@) is Some,
    ensures
        parameter_places(args, from) == Seq::<int>::empty(),
    decreases args.len() + 1 - from,
{
    if from < args.len() {
        assert(option_named(args[from]@) is Some);
        lemma_only_options(args, from + 2);
    }
}

/// How many bytes of shared memory to map.
pub fn mapped_bytes(processors: usize) -> (r: usize)
    requires
        SIZE * processors <= usize::MAX,
    ensures
        r == SIZE * processors,
{
    SIZE * processors
}

proof fn lemma_digits_say(s: Seq<char>)
    ensures
        digits_value(s) == said(s),
    decreases s.len(),
{
    if s.len() > 0 {
        lemma_digits_say(s.drop_last());
    }
}

/// Whether `s` is digits, of which there is one at least.
pub open spec fn all_digits(s: Seq<char>) -> bool {
    &&& s.len() > 0
    &&& forall|i: int| 0 <= i < s.len() ==> 0 <= #[trigger] digit_value(s[i]) <= 9
}

/// A text is a number if it is digits, of which there is one at least, with a sign in front of them
/// or none, and the number that they say, negated where the sign is a minus, fits into 64 bits.
/// Then it is that number.
pub proof fn law_number_read(s: Seq<char>)
    ensures
        ({
            let signed = s.len() > 0 && (s[0] == '-' || s[0] == '+');
            let digits = if signed {
                s.subrange(1, s.len() as int)
            } else {
                s
            };
            let value = if signed && s[0] == '-' {
                -said(digits)
            } else {
                said(digits)
            };
            let fits = all_digits(digits) && -0x8000_0000_0000_0000 <= value
                <= 0x7fff_ffff_ffff_ffff;
            match number_in(s) {
                Some(n) => fits && n == value,
                None => !fits,
            }
        }),
{
    let signed = s.len() > 0 && (s[0] == '-' || s[0] == '+');
    let digits = if signed {
        s.subrange(1, s.len() as int)
    } else {
        s
    };
    if signed {
        assert(s.skip(1) =~= digits);
    }
    lemma_digits_say(digits);
    if is_digits(digits) {
        assert forall|i: int| 0 <= i < digits.len() implies 0 <= #[trigger] digit_value(digits[i])
            <= 9 by {
            assert(is_digit(digits[i]));
        }
    } else if digits.len() > 0 {
        let i = choose|i: int| 0 <= i < digits.len() && !is_digit(#[trigger] digits[i]);
        assert(!(0 <= digit_value(digits[i]) <= 9));
    }
    assert(is_digits(digits) == all_digits(digits));
}

/// A number written in digits is read as that number.
pub proof fn law_number_round_trip(n: nat)
    requires
        n <= i64::MAX,
    ensures
        number_in(decimal(n)) == Some(n as i64),
        number_in(seq!['-'] + decimal(n)) == Some((-n) as i64),
        number_in(seq!['+'] + decimal(n)) == Some(n as i64),
{
    let d = decimal(n);
    law_number_said(n);
    law_number_read(d);
    law_number_read(seq!['-'] + d);
    law_number_read(seq!['+'] + d);
    assert(0 <= digit_value(d[0]) <= 9);
    assert((seq!['-'] + d).subrange(1, (d.len() + 1) as int) =~= d);
    assert((seq!['+'] + d).subrange(1, (d.len() + 1) as int) =~= d);
}

/// Which words name an option.
pub proof fn law_options_named(text: Seq<char>)
    ensures
        option_named(text) == Some(RunOption::Workers) <==> text == "-w"@ || text == "--workers"@,
        option_named(text) == Some(RunOption::Processes) <==> text == "-n"@ || text
            == "--processes"@,
        option_named(text) == Some(RunOption::Process) <==> text == "-p"@ || text == "--process"@,
        option_named(text) == Some(RunOption::Hostfile) <==> text == "-h"@ || text
            == "--hostfile"@,
{
    reveal_strlit("-w");
    reveal_strlit("--workers");
    reveal_strlit("-n");
    reveal_strlit("--processes");
    reveal_strlit("-p");
    reveal_strlit("--process");
    reveal_strlit("-h");
    reveal_strlit("--hostfile");
    assert("-w"@[1] == 'w' && "-n"@[1] == 'n' && "-p"@[1] == 'p' && "-h"@[1] == 'h');
    assert("--workers"@[2] == 'w' && "--processes"@.len() == 11 && "--process"@.len() == 9
        && "--hostfile"@[2] == 'h');
    assert("--process"@[2] == 'p');
}

/// The parameters of a run are those arguments that neither name an option nor follow a word that
/// does, in their order. No argument that names an option is a parameter, and what is no parameter
/// names an option or follows a word that does.
pub proof fn law_parameters_found(args: Seq<String>, from: int, p: int)
    requires
        0 <= from,
    ensures
        ({
            let places = parameter_places(args, from);
            &&& forall|k: int| 0 <= k < places.len() ==> from <= #[trigger] places[k] < args.len()
            &&& forall|j: int, k: int| 0 <= j < k < places.len() ==> places[j] < places[k]
            &&& places.contains(p) ==> option_named(args[p]@) is None
            &&& from <= p < args.len() && option_named(args[p]@) is None && (p == from
                || option_named(args[p - 1]@) is None) ==> places.contains(p)
            &&& from <= p < args.len() && !places.contains(p) ==> option_named(args[p]@) is Some || (p
                > from && option_named(args[p - 1]@) is Some)
        }),
    decreases args.len() + 1 - from,
{
    let places = parameter_places(args, from);
    if from < args.len() {
        if option_named(args[from]@) is Some {
            law_parameters_found(args, from + 2, p);
        } else {
            let rest = parameter_places(args, from + 1);
            law_parameters_found(args, from + 1, p);
            assert(places == seq![from] + rest);
            assert(places[0] == from);
            assert forall|j: int, k: int| 0 <= j < k < places.len() implies places[j]
                < places[k] by {
                assert(places[k] == rest[k - 1]);
                if j > 0 {
                    assert(places[j] == rest[j - 1]);
                }
            }
            assert forall|k: int| 0 <= k < places.len() implies from <= #[trigger] places[k]
                < args.len() by {
                if k > 0 {
                    assert(places[k] == rest[k - 1]);
                }
            }
            if rest.contains(p) {
                let k = rest.index_of(p);
                assert(places[k + 1] == p);
            }
            if places.contains(p) && p != from {
                let k = places.index_of(p);
                assert(rest[k - 1] == p);
            }
        }
    }
}

/// The value of an option is the argument behind a word that names it; there is none where no word
/// names it. Where options come one after the other, each with its value, the first that names it
/// counts.
pub proof fn law_value_found(args: Seq<String>, from: int, option: RunOption, p: int)
    requires
        0 <= from,
    ensures
        match value_place(args, from, option) {
            Some(place) => from < place <= args.len() && option_named(args[place - 1]@) == Some(
                option,
            ),
            None => true,
        },
        (forall|i: int|
            from <= i < args.len() ==> option_named((#[trigger] args[i])@) != Some(option))
            ==> value_place(args, from, option) is None,
        from <= p < args.len() && option_named(args[p]@) == Some(option) && (forall|i: int|
            from <= i < p ==> option_named((#[trigger] args[i])@) is None) ==> value_place(
            args,
            from,
            option,
        ) == Some(p + 1),
        from <= p < args.len() && (p - from) % 2 == 0 && option_named(args[p]@) == Some(option) && (
        forall|i: int|
            from <= i < p && (i - from) % 2 == 0 ==> option_named((#[trigger] args[i])@) is Some
                && option_named(args[i]@) != Some(option)) ==> value_place(args, from, option)
            == Some(p + 1),
    decreases args.len() + 1 - from,
{
    if from < args.len() {
        match option_named(args[from]@) {
            Some(named) => {
                if named != option {
                    law_value_found(args, from + 2, option, p);
                    if from <= p < args.len() && (p - from) % 2 == 0 && option_named(args[p]@)
                        == Some(option) {
                        assert(p >= from + 2);
                        assert((p - (from + 2)) % 2 == 0);
                        if forall|i: int|
                            from <= i < p && (i - from) % 2 == 0 ==> option_named(
                                (#[trigger] args[i])@,
                            ) is Some && option_named(args[i]@) != Some(option) {
                            assert forall|i: int|
                                from + 2 <= i < p && (i - (from + 2)) % 2 == 0 implies option_named(
                                (#[trigger] args[i])@,
                            ) is Some && option_named(args[i]@) != Some(option) by {
                                assert((i - from) % 2 == 0);
                            }
                        }
                    }
                }
            },
            None => {
                law_value_found(args, from + 1, option, p);
            },
        }
    }
}

/// Without options, the first three arguments behind the name of the program are the parameters, in
/// this order: rounds, data and operators. Each that is missing is zero, and the first that is no
/// number is an error.
pub proof fn law_plain_parameters(args: Seq<String>)
    requires
        forall|i: int| 1 <= i < args.len() ==> option_named((#[trigger] args[i])@) is None,
    ensures
        ({
            let value = |i: int|
                if i < args.len() {
                    number_in(args[i]@)
                } else {
                    Some(0i64)
                };
            match params_in(args) {
                Ok(p) => {
                    &&& value(1) == Some(p.rounds)
                    &&& value(2) == Some(p.data)
                    &&& value(3) == Some(p.operators)
                },
                Err(ParamsError::Invalid(at)) => {
                    &&& 1 <= at <= 3
                    &&& value(at as int) is None
                    &&& forall|j: int| 1 <= j < at ==> #[trigger] value(j) is Some
                },
                Err(ParamsError::Missing(_)) => false,
            }
        }),
{
    lemma_all_parameters(args, 1);
    let places = parameter_places(args, 1);
    let value = |i: int|
        if i < args.len() {
            number_in(args[i]@)
        } else {
            Some(0i64)
        };
    assert(forall|k: int| 0 <= k < places.len() ==> #[trigger] places[k] == k + 1);
    assert(value(1) == (match parameter(args, 0) {
        Ok(n) => Some(n),
        Err(_) => None,
    }));
    assert(value(2) == (match parameter(args, 1) {
        Ok(n) => Some(n),
        Err(_) => None,
    }));
    assert(value(3) == (match parameter(args, 2) {
        Ok(n) => Some(n),
        Err(_) => None,
    }));
}

proof fn lemma_all_parameters(args: Seq<String>, from: int)
    requires
        1 <= from,
        forall|i: int| 1 <= i < args.len() ==> option_named((#[trigger] args[i])@) is None,
    ensures
        parameter_places(args, from).len() == (if from < args.len() {
            args.len() - from
        } else {
            0
        }),
        forall|k: int|
            0 <= k < parameter_places(args, from).len() ==> #[trigger] parameter_places(
                args,
                from,
            )[k] == from + k,
    decreases args.len() + 1 - from,
{
    if from < args.len() {
        lemma_all_parameters(args, from + 1);
        assert(option_named(args[from]@) is None);
    }
}

/// Without options a run has one worker in one process, the first, and no file of hosts.
pub proof fn law_plain_configuration(args: Seq<String>, r: Result<Configuration, ParamsError>)
    requires
        forall|i: int| 1 <= i < args.len() ==> option_named((#[trigger] args[i])@) is None,
        configured(args, r),
    ensures
        match r {
            Ok(c) => c.workers == 1 && c.processes == 1 && c.process == 0 && c.hostfile is None,
            Err(_) => false,
        },
{
    law_value_found(args, 1, RunOption::Workers, 1);
    law_value_found(args, 1, RunOption::Processes, 1);
    law_value_found(args, 1, RunOption::Process, 1);
    law_value_found(args, 1, RunOption::Hostfile, 1);
}

/// What a run is configured to: the numbers behind the words that name workers, processes and the
/// process, where there are any, and the text behind the one that names a file of hosts. Where such
/// a word is the last argument, or no number that fits is behind it, there is no configuration.
pub proof fn law_configuration_read(args: Seq<String>, r: Result<Configuration, ParamsError>)
    requires
        configured(args, r),
    ensures
        ({
            let read = |option: RunOption, default: int|
                match value_place(args, 1, option) {
                    None => Some(default),
                    Some(at) => if at < args.len() && number_in(args[at]@) is Some && 0
                        <= number_in(args[at]@)->0 <= usize::MAX {
                        Some(number_in(args[at]@)->0 as int)
                    } else {
                        None
                    },
                };
            let workers = read(RunOption::Workers, 1);
            let processes = read(RunOption::Processes, 1);
            let process = read(RunOption::Process, 0);
            let host = value_place(args, 1, RunOption::Hostfile);
            match r {
                Ok(c) => {
                    &&& workers == Some(c.workers as int)
                    &&& processes == Some(c.processes as int)
                    &&& process == Some(c.process as int)
                    &&& c.hostfile is None <==> host is None
                    &&& host is Some ==> host->0 < args.len() && c.hostfile->0@ == args[host->0]@
                },
                Err(_) => workers is None || processes is None || process is None || (host is Some
                    && host->0 >= args.len()),
            }
        }),
{
}

/// Each processor has a page of 4096 bytes.
pub proof fn law_page_for_each(processors: usize)
    ensures
        SIZE * processors == 4096 * processors,
{
}

} // verus!
