use crate::number::{
    find_char, index_of, lemma_index_of_prefix, parse_hundredths, parse_nat, parse_percent, parse_u32,
};
use crate::text::same_text;
use vstd::prelude::*;
use vstd::string::StrSliceExecFns;

verus! {

/// The characters that separate words of a command.
pub open spec fn is_blank(c: char) -> bool {
    c == ' ' || c == '\t' || c == '\n' || c == '\r'
}

/// The words of `s`: its maximal runs of non-blank characters, in order.
pub open spec fn tokens(s: Seq<char>) -> Seq<Seq<char>>
    decreases s.len(),
{
    if s.len() == 0 {
        Seq::empty()
    } else {
        let t = tokens(s.drop_last());
        let c = s.last();
        if is_blank(c) {
            t
        } else if s.len() >= 2 && !is_blank(s[s.len() - 2]) {
            t.update(t.len() - 1, t.last().push(c))
        } else {
            t.push(seq![c])
        }
    }
}

pub open spec fn opt_view(o: Option<&str>) -> Option<Seq<char>> {
    match o {
        Some(s) => Some(s@),
        None => None,
    }
}

pub open spec fn views(v: Seq<&str>) -> Seq<Seq<char>> {
    v.map_values(|w: &str| w@)
}

fn is_blank_char(c: char) -> (r: bool)
    ensures
        r == is_blank(c),
{
    c == ' ' || c == '\t' || c == '\n' || c == '\r'
}

/// Splits `s` into its words.
pub fn split_words(s: &str) -> (r: Vec<&str>)
    ensures
        views(r@) == tokens(s@),
{
    let n = s.unicode_len();
    let mut words: Vec<&str> = Vec::new();
    let mut start: usize = 0;
    let mut in_word = false;
    let mut i: usize = 0;
    while i < n
        invariant
            n == s@.len(),
            i <= n,
            start <= i,
            in_word == (i > 0 && !is_blank(s@[i - 1])),
            in_word ==> forall|k: int| start <= k < i ==> !is_blank(#[trigger] s@[k]),
            in_word ==> (start == 0 || is_blank(s@[start - 1])),
            in_word ==> views(words@).push(s@.subrange(start as int, i as int)) == tokens(
                s@.take(i as int),
            ),
            !in_word ==> views(words@) == tokens(s@.take(i as int)),
        decreases n - i,
    {
        let c = s.get_char(i);
        assert(s@.take(i + 1).drop_last() =~= s@.take(i as int));
        assert(s@.take(i + 1).last() == c);
        if is_blank_char(c) {
            if in_word {
                let w = s.substring_char(start, i);
                words.push(w);
                assert(views(words@) =~= views(words@.drop_last()).push(w@));
            }
            in_word = false;
        } else {
            if in_word {
                assert(s@.take(i + 1)[i - 1] == s@[i - 1]);
                assert(s@.subrange(start as int, i + 1) =~= s@.subrange(start as int, i as int).push(c));
            } else {
                start = i;
                assert(s@.subrange(start as int, i + 1) =~= seq![c]);
                if i > 0 {
                    assert(s@.take(i + 1)[i - 1] == s@[i - 1]);
                }
            }
            in_word = true;
        }
        i = i + 1;
    }
    assert(s@.take(n as int) =~= s@);
    if in_word {
        let w = s.substring_char(start, n);
        words.push(w);
        assert(views(words@) =~= views(words@.drop_last()).push(w@));
    }
    words
}

/// How a numeric command changes its field.
#[derive(PartialEq, Eq, Structural, Clone, Copy, Debug)]
pub enum Operation {
    Add,
    Subtract,
    Assign,
}

/// A command, its words borrowed from the text it was read from.
#[derive(PartialEq, Debug)]
pub enum Command<'a> {
    Invalid,
    Single(&'a str),
    Numeric { namespace: &'a str, operation: Operation, value: u32 },
    Textual { namespace: &'a str, value: &'a str },
}

/// A command with its words as character sequences.
pub enum CommandModel {
    Invalid,
    Single(Seq<char>),
    Numeric { namespace: Seq<char>, operation: Operation, value: u32 },
    Textual { namespace: Seq<char>, value: Seq<char> },
}

impl<'a> View for Command<'a> {
    type V = CommandModel;

    open spec fn view(&self) -> CommandModel {
        match *self {
            Command::Invalid => CommandModel::Invalid,
            Command::Single(a) => CommandModel::Single(a@),
            Command::Numeric { namespace, operation, value } => CommandModel::Numeric {
                namespace: namespace@,
                operation,
                value,
            },
            Command::Textual { namespace, value } => CommandModel::Textual {
                namespace: namespace@,
                value: value@,
            },
        }
    }
}

/// A word that names an option, such as `--tags`.
pub open spec fn is_option_flag(t: Seq<char>) -> bool {
    t.len() >= 2 && t[0] == '-' && t[1] == '-'
}

/// Word `i` is neither an option nor the value of the option before it.
pub open spec fn kept_word(toks: Seq<Seq<char>>, i: int) -> bool {
    !is_option_flag(toks[i]) && (i == 0 || !is_option_flag(toks[i - 1]))
}

/// The words left once every option and the word after it are taken out.
pub open spec fn strip_options(toks: Seq<Seq<char>>) -> Seq<Seq<char>>
    decreases toks.len(),
{
    if toks.len() == 0 {
        toks
    } else {
        let r = strip_options(toks.drop_last());
        if kept_word(toks, toks.len() - 1) {
            r.push(toks.last())
        } else {
            r
        }
    }
}

/// The word after the first occurrence of `option`, if there is one.
pub open spec fn option_value(toks: Seq<Seq<char>>, option: Seq<char>) -> Option<Seq<char>> {
    match index_of(toks, option) {
        Some(i) => if i + 1 < toks.len() {
            Some(toks[i + 1])
        } else {
            None
        },
        None => None,
    }
}

/// The tag set named by `--tags`: `all` is the wildcard 0.
pub open spec fn tags_option(s: Seq<char>) -> Option<u32> {
    match option_value(tokens(s), "--tags"@) {
        Some(v) => if v == "all"@ {
            Some(0)
        } else {
            parse_nat(v)
        },
        None => None,
    }
}

/// The compatibility forms `-view-padding N`, `-outer-padding N`, `-main-count N`,
/// `-main-ratio F` and `-main-location DIR`.
pub open spec fn legacy_command(cmd: Seq<char>, value: Seq<char>) -> CommandModel {
    if cmd == "-main-ratio"@ {
        match parse_percent(value) {
            Some(v) => CommandModel::Numeric {
                namespace: "main-ratio"@,
                operation: Operation::Assign,
                value: v,
            },
            None => CommandModel::Invalid,
        }
    } else if cmd == "-main-location"@ {
        CommandModel::Textual { namespace: "main-location"@, value }
    } else {
        match parse_nat(value) {
            None => CommandModel::Invalid,
            Some(v) => if cmd == "-view-padding"@ {
                CommandModel::Numeric { namespace: "view-padding"@, operation: Operation::Assign, value: v }
            } else if cmd == "-outer-padding"@ {
                CommandModel::Numeric {
                    namespace: "outer-padding"@,
                    operation: Operation::Assign,
                    value: v,
                }
            } else if cmd == "-main-count"@ {
                CommandModel::Numeric { namespace: "main-count"@, operation: Operation::Assign, value: v }
            } else {
                CommandModel::Invalid
            },
        }
    }
}

/// `namespace value`: a leading `+` or `-` on the value adds or subtracts; the rest is an
/// integer, else a decimal fraction in hundredths, else kept as text.
pub open spec fn signed_command(namespace: Seq<char>, value: Seq<char>) -> CommandModel {
    let operation = if value.len() > 0 && value[0] == '+' {
        Operation::Add
    } else if value.len() > 0 && value[0] == '-' {
        Operation::Subtract
    } else {
        Operation::Assign
    };
    let body = if value.len() > 0 && (value[0] == '+' || value[0] == '-') {
        value.drop_first()
    } else {
        value
    };
    match parse_nat(body) {
        Some(n) => CommandModel::Numeric { namespace, operation, value: n },
        None => match parse_percent(body) {
            Some(n) => CommandModel::Numeric { namespace, operation, value: n },
            None => CommandModel::Textual { namespace, value: body },
        },
    }
}

/// The command that the text `s` holds.
pub open spec fn parse(s: Seq<char>) -> CommandModel {
    let toks = tokens(s);
    let legacy = if toks.len() == 2 {
        legacy_command(toks[0], toks[1])
    } else {
        CommandModel::Invalid
    };
    if legacy !is Invalid {
        legacy
    } else {
        let rest = strip_options(toks);
        if rest.len() == 1 {
            CommandModel::Single(rest[0])
        } else if rest.len() == 2 {
            signed_command(rest[0], rest[1])
        } else {
            CommandModel::Invalid
        }
    }
}

fn is_flag_word(w: &str) -> (r: bool)
    ensures
        r == is_option_flag(w@),
{
    w.unicode_len() >= 2 && w.get_char(0) == '-' && w.get_char(1) == '-'
}

fn remove_options<'a>(parts: &[&'a str]) -> (r: Vec<&'a str>)
    ensures
        views(r@) == strip_options(views(parts@)),
{
    let ghost toks = views(parts@);
    let mut ret: Vec<&'a str> = Vec::new();
    let mut remove_next = false;
    let mut i: usize = 0;
    while i < parts.len()
        invariant
            i <= parts@.len(),
            toks == views(parts@),
            remove_next == (i > 0 && is_option_flag(toks[i - 1])),
            views(ret@) == strip_options(toks.take(i as int)),
        decreases parts@.len() - i,
    {
        let item = parts[i];
        assert(toks.take(i + 1).drop_last() =~= toks.take(i as int));
        assert(toks.take(i + 1).last() == item@);
        if i > 0 {
            assert(toks.take(i + 1)[i - 1] == toks[i - 1]);
        }
        if is_flag_word(item) {
            remove_next = true;
        } else if remove_next {
            remove_next = false;
        } else {
            ret.push(item);
            assert(views(ret@) =~= views(ret@.drop_last()).push(item@));
        }
        i = i + 1;
    }
    assert(toks.take(i as int) =~= toks);
    ret
}

fn find_option<'a>(option: &'a str, cmd: &'a str) -> (r: Option<&'a str>)
    ensures
        opt_view(r) == option_value(tokens(cmd@), option@),
{
    let parts = split_words(cmd);
    let ghost toks = tokens(cmd@);
    let mut i: usize = 0;
    while i < parts.len()
        invariant
            i <= parts@.len(),
            views(parts@) == toks,
            toks == tokens(cmd@),
            index_of(toks.take(i as int), option@) is None,
        decreases parts@.len() - i,
    {
        assert(toks.take(i + 1).drop_last() =~= toks.take(i as int));
        if same_text(parts[i], option) {
            assert(toks[i as int] == parts@[i as int]@);
            assert(toks.take(i + 1).last() == toks[i as int]);
            assert(index_of(toks.take(i + 1), option@) == Some(i as int));
            proof {
                lemma_index_of_prefix(toks, option@, i + 1);
            }
            if i + 1 < parts.len() {
                assert(toks[i + 1] == parts@[i + 1]@);
                return Some(parts[i + 1]);
            }
            return None;
        }
        i = i + 1;
    }
    assert(toks.take(i as int) =~= toks);
    None
}

/// The output named by `--output` in `cmd`.
pub fn parse_output(cmd: &str) -> (r: Option<&str>)
    ensures
        opt_view(r) == option_value(tokens(cmd@), "--output"@),
{
    find_option("--output", cmd)
}

/// The tag set named by `--tags` in `cmd`.
pub fn parse_tags(cmd: &str) -> (r: Option<u32>)
    ensures
        r == tags_option(cmd@),
{
    match find_option("--tags", cmd) {
        Some(v) => {
            if same_text(v, "all") {
                Some(0)
            } else {
                parse_u32(v)
            }
        },
        None => None,
    }
}

fn parse_rivertile_command<'a>(cmd: &'a str, value: &'a str) -> (r: Command<'a>)
    ensures
        r@ == legacy_command(cmd@, value@),
        r matches Command::Textual { value: v, .. } ==> v == value,
{
    if same_text(cmd, "-main-ratio") {
        return match parse_hundredths(value) {
            Some(v) => Command::Numeric { namespace: "main-ratio", operation: Operation::Assign, value: v },
            None => Command::Invalid,
        };
    }
    if same_text(cmd, "-main-location") {
        return Command::Textual { namespace: "main-location", value };
    }
    let v = match parse_u32(value) {
        Some(v) => v,
        None => return Command::Invalid,
    };
    if same_text(cmd, "-view-padding") {
        Command::Numeric { namespace: "view-padding", operation: Operation::Assign, value: v }
    } else if same_text(cmd, "-outer-padding") {
        Command::Numeric { namespace: "outer-padding", operation: Operation::Assign, value: v }
    } else if same_text(cmd, "-main-count") {
        Command::Numeric { namespace: "main-count", operation: Operation::Assign, value: v }
    } else {
        Command::Invalid
    }
}

fn parse_signed<'a>(namespace: &'a str, value: &'a str) -> (r: Command<'a>)
    ensures
        r@ == signed_command(namespace@, value@),
{
    let n = value.unicode_len();
    let first = if n > 0 {
        value.get_char(0)
    } else {
        ' '
    };
    let operation = if first == '+' {
        Operation::Add
    } else if first == '-' {
        Operation::Subtract
    } else {
        Operation::Assign
    };
    let body = if first == '+' || first == '-' {
        value.substring_char(1, n)
    } else {
        value
    };
    assert(first == '+' || first == '-' ==> body@ =~= value@.drop_first());
    match parse_u32(body) {
        Some(v) => Command::Numeric { namespace, operation, value: v },
        None => match parse_hundredths(body) {
            Some(v) => Command::Numeric { namespace, operation, value: v },
            None => Command::Textual { namespace, value: body },
        },
    }
}

/// Reads the command in `cmd`.
pub fn parse_command(cmd: &str) -> (r: Command)
    ensures
        r@ == parse(cmd@),
{
    let parts = split_words(cmd);
    if parts.len() == 2 {
        let command = parse_rivertile_command(parts[0], parts[1]);
        match command {
            Command::Invalid => {},
            _ => return command,
        }
    }
    let parts = remove_options(parts.as_slice());
    if parts.len() == 1 {
        return Command::Single(parts[0]);
    }
    if parts.len() == 2 {
        return parse_signed(parts[0], parts[1]);
    }
    Command::Invalid
}

pub open spec fn trim_start(s: Seq<char>) -> Seq<char>
    decreases s.len(),
{
    if s.len() > 0 && is_blank(s[0]) {
        trim_start(s.drop_first())
    } else {
        s
    }
}

pub open spec fn trim_end(s: Seq<char>) -> Seq<char>
    decreases s.len(),
{
    if s.len() > 0 && is_blank(s.last()) {
        trim_end(s.drop_last())
    } else {
        s
    }
}

/// `s` without blanks at either end.
pub open spec fn trim(s: Seq<char>) -> Seq<char> {
    trim_end(trim_start(s))
}

/// Position `i` starts a run of blanks that follows a word.
pub open spec fn is_gap_start(t: Seq<char>, i: int) -> bool {
    0 < i < t.len() && is_blank(t[i]) && !is_blank(t[i - 1])
}

/// How many runs of blanks start before position `i`.
pub open spec fn gaps_before(t: Seq<char>, i: int) -> int
    decreases i,
{
    if i <= 0 {
        0
    } else {
        gaps_before(t, i - 1) + if is_gap_start(t, i - 1) {
            1int
        } else {
            0int
        }
    }
}

/// The start of the second run of blanks among positions `0..i`.
pub open spec fn second_gap_before(t: Seq<char>, i: int) -> Option<int>
    decreases i,
{
    if i <= 0 {
        None
    } else {
        match second_gap_before(t, i - 1) {
            Some(j) => Some(j),
            None => if is_gap_start(t, i - 1) && gaps_before(t, i - 1) == 1 {
                Some(i - 1)
            } else {
                None
            },
        }
    }
}

/// The first command of `s` and the text after it: a command that starts with a single `-`
/// ends where its second run of blanks starts, any other at the first comma.
pub open spec fn split_spec(s: Seq<char>) -> (Seq<char>, Option<Seq<char>>) {
    let t = trim(s);
    let legacy = t.len() > 0 && t[0] == '-' && !(t.len() > 1 && t[1] == '-');
    let cut = if legacy {
        second_gap_before(t, t.len() as int)
    } else {
        index_of(t, ',')
    };
    match cut {
        None => (t, None),
        Some(c) => {
            let rest = trim(
                if legacy {
                    t.subrange(c, t.len() as int)
                } else {
                    t.subrange(c + 1, t.len() as int)
                },
            );
            (
                t.subrange(0, c),
                if rest.len() == 0 {
                    None
                } else {
                    Some(rest)
                },
            )
        },
    }
}

proof fn lemma_trim_start(s: Seq<char>, a: int)
    requires
        0 <= a <= s.len(),
        forall|k: int| 0 <= k < a ==> is_blank(#[trigger] s[k]),
        a == s.len() || !is_blank(s[a]),
    ensures
        trim_start(s) == s.subrange(a, s.len() as int),
    decreases a,
{
    if a > 0 {
        assert forall|k: int| 0 <= k < a - 1 implies is_blank(#[trigger] s.drop_first()[k]) by {
            assert(s.drop_first()[k] == s[k + 1]);
        }
        lemma_trim_start(s.drop_first(), a - 1);
        assert(s.drop_first().subrange(a - 1, s.len() - 1) =~= s.subrange(a, s.len() as int));
    } else {
        assert(s.subrange(0, s.len() as int) =~= s);
    }
}

proof fn lemma_trim_end(s: Seq<char>, b: int)
    requires
        0 <= b <= s.len(),
        forall|k: int| b <= k < s.len() ==> is_blank(#[trigger] s[k]),
        b == 0 || !is_blank(s[b - 1]),
    ensures
        trim_end(s) == s.subrange(0, b),
    decreases s.len() - b,
{
    if b < s.len() {
        assert forall|k: int| b <= k < s.len() - 1 implies is_blank(#[trigger] s.drop_last()[k]) by {
            assert(s.drop_last()[k] == s[k]);
        }
        lemma_trim_end(s.drop_last(), b);
        assert(s.drop_last().subrange(0, b) =~= s.subrange(0, b));
    } else {
        assert(s.subrange(0, b) =~= s);
    }
}

/// `s` without blanks at either end.
pub fn trim_text(s: &str) -> (r: &str)
    ensures
        r@ == trim(s@),
{
    let n = s.unicode_len();
    let mut a: usize = 0;
    while a < n && is_blank_char(s.get_char(a))
        invariant
            n == s@.len(),
            a <= n,
            forall|k: int| 0 <= k < a ==> is_blank(#[trigger] s@[k]),
        decreases n - a,
    {
        a = a + 1;
    }
    let mut b: usize = n;
    while b > a && is_blank_char(s.get_char(b - 1))
        invariant
            n == s@.len(),
            a <= b <= n,
            forall|k: int| b <= k < n ==> is_blank(#[trigger] s@[k]),
        decreases b,
    {
        b = b - 1;
    }
    proof {
        lemma_trim_start(s@, a as int);
        let rest = s@.subrange(a as int, n as int);
        assert forall|k: int| b - a <= k < rest.len() implies is_blank(#[trigger] rest[k]) by {
            assert(rest[k] == s@[k + a]);
        }
        if b > a {
            assert(rest[b - a - 1] == s@[b - 1]);
        }
        lemma_trim_end(rest, b - a);
        assert(rest.subrange(0, b - a) =~= s@.subrange(a as int, b as int));
    }
    s.substring_char(a, b)
}

proof fn lemma_second_gap_stable(t: Seq<char>, i: int, k: int)
    requires
        0 <= i <= k,
        second_gap_before(t, i) is Some,
    ensures
        second_gap_before(t, k) == second_gap_before(t, i),
    decreases k - i,
{
    if i < k {
        lemma_second_gap_stable(t, i, k - 1);
    }
}

/// Where the second run of blanks in `t` starts.
fn second_gap(t: &str) -> (r: Option<usize>)
    ensures
        match r {
            Some(c) => second_gap_before(t@, t@.len() as int) == Some(c as int) && c < t@.len(),
            None => second_gap_before(t@, t@.len() as int) is None,
        },
{
    let n = t.unicode_len();
    let mut gaps: usize = 0;
    let mut i: usize = 0;
    while i < n
        invariant
            n == t@.len(),
            i <= n,
            gaps == gaps_before(t@, i as int),
            gaps <= 1,
            second_gap_before(t@, i as int) is None,
        decreases n - i,
    {
        if i > 0 && is_blank_char(t.get_char(i)) && !is_blank_char(t.get_char(i - 1)) {
            if gaps == 1 {
                proof {
                    lemma_second_gap_stable(t@, i + 1, n as int);
                }
                return Some(i);
            }
            gaps = gaps + 1;
        }
        i = i + 1;
    }
    None
}

/// Splits off the first command of `cmd`, as `split_spec` describes.
pub fn split_commands(cmd: &str) -> (r: (&str, Option<&str>))
    ensures
        (r.0@, opt_view(r.1)) == split_spec(cmd@),
{
    let t = trim_text(cmd);
    let n = t.unicode_len();
    let legacy = n > 0 && t.get_char(0) == '-' && !(n > 1 && t.get_char(1) == '-');
    assert(t@.subrange(0, n as int) =~= t@);
    let cut = if legacy {
        match second_gap(t) {
            Some(c) => Some((c, c)),
            None => None,
        }
    } else {
        match find_char(t, 0, n, ',') {
            Some(c) => Some((c, c + 1)),
            None => None,
        }
    };
    match cut {
        None => (t, None),
        Some((end, rest_start)) => {
            let car = t.substring_char(0, end);
            let rest = trim_text(t.substring_char(rest_start, n));
            if rest.unicode_len() == 0 {
                (car, None)
            } else {
                (car, Some(rest))
            }
        },
    }
}

} // verus!
