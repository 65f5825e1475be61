//! The interactive shell, without the terminal: its arguments and what each line
//! asks for.

use vstd::prelude::*;

use crate::text::{ascii, parse_unsigned, same_text, texts, unsigned};

verus! {

/// Where to connect, and as whom.
#[derive(Debug)]
pub struct Options {
    pub addr: String,
    pub user: String,
    pub pass: String,
}

/// What [`Options`] say.
#[verifier::ext_equal]
pub struct OptionsView {
    pub addr: Seq<char>,
    pub user: Seq<char>,
    pub pass: Seq<char>,
}

impl View for Options {
    type V = OptionsView;

    open spec fn view(&self) -> OptionsView {
        OptionsView { addr: self.addr@, user: self.user@, pass: self.pass@ }
    }
}

/// The address of a server on this machine.
pub open spec fn default_addr() -> Seq<char> {
    "127.0.0.1:8383"@
}

/// What arguments make of the options: `None` where help is asked for. A last
/// `--addr` without a value changes nothing, a last `--user` or `--pass` without
/// one clears it, and what is no flag is an address.
pub open spec fn parsed_options(opts: OptionsView, args: Seq<Seq<char>>) -> Option<OptionsView>
    decreases args.len(),
{
    if args.len() == 0 {
        Some(opts)
    } else if args[0] == "-h"@ || args[0] == "--help"@ {
        None
    } else if args[0] == "--addr"@ {
        if args.len() == 1 {
            Some(opts)
        } else {
            parsed_options(OptionsView { addr: args[1], ..opts }, args.skip(2))
        }
    } else if args[0] == "--user"@ {
        if args.len() == 1 {
            Some(OptionsView { user: Seq::empty(), ..opts })
        } else {
            parsed_options(OptionsView { user: args[1], ..opts }, args.skip(2))
        }
    } else if args[0] == "--pass"@ {
        if args.len() == 1 {
            Some(OptionsView { pass: Seq::empty(), ..opts })
        } else {
            parsed_options(OptionsView { pass: args[1], ..opts }, args.skip(2))
        }
    } else {
        parsed_options(OptionsView { addr: args[0], ..opts }, args.skip(1))
    }
}

/// Reads the arguments of the shell. User name and password start from the
/// environment, or empty. `None` where help is asked for.
pub fn parse_options(user: String, pass: String, args: &Vec<String>) -> (r: Option<Options>)
    ensures
        ({
            let start = OptionsView { addr: default_addr(), user: user@, pass: pass@ };
            match r {
                Some(opts) => parsed_options(start, texts(args@)) == Some(opts@),
                None => parsed_options(start, texts(args@)) is None,
            }
        }),
{
    let mut opts = Options { addr: "127.0.0.1:8383".to_owned(), user, pass };
    let ghost start = opts@;
    let ghost all = texts(args@);
    let mut i: usize = 0;
    assert(all.skip(0) =~= all);
    while i < args.len()
        invariant
            i <= args@.len(),
            all == texts(args@),
            start == (OptionsView { addr: default_addr(), user: user@, pass: pass@ }),
            parsed_options(start, all) == parsed_options(opts@, all.skip(i as int)),
        decreases args.len() - i,
    {
        let arg: &String = &args[i];
        let ghost rest = all.skip(i as int);
        assert(rest[0] == arg@);
        if same_text(arg, "-h") || same_text(arg, "--help") {
            return None;
        }
        let last: bool = args.len() - i == 1;
        assert(!last ==> rest[1] == args@[i + 1]@);
        assert(rest.skip(1) =~= all.skip(i + 1));
        assert(!last ==> rest.skip(2) =~= all.skip(i + 2));
        if same_text(arg, "--addr") {
            if last {
                return Some(opts);
            }
            opts.addr = args[i + 1].clone();
            i = i + 2;
        } else if same_text(arg, "--user") {
            if last {
                opts.user = String::new();
                return Some(opts);
            }
            opts.user = args[i + 1].clone();
            i = i + 2;
        } else if same_text(arg, "--pass") {
            if last {
                opts.pass = String::new();
                return Some(opts);
            }
            opts.pass = args[i + 1].clone();
            i = i + 2;
        } else {
            opts.addr = arg.clone();
            i = i + 1;
        }
    }
    assert(all.skip(i as int) =~= Seq::empty());
    Some(opts)
}

/// What a line asks for.
#[derive(Debug, PartialEq, Eq)]
pub enum Input {
    /// Nothing.
    Blank,
    Get { key: Vec<char> },
    Put { key: Vec<char>, value: Vec<char> },
    SetEx { key: Vec<char>, ttl_ms: u32, value: Vec<char> },
    Del { key: Vec<char> },
    /// A `setex` whose time to live is missing or no number.
    BadSetEx,
    /// A command, as it was typed, that lacks its key.
    Incomplete(Vec<char>),
    Help,
    Quit,
    /// No command that the shell knows, in lower case.
    Unknown(Vec<char>),
}

/// What an [`Input`] says.
pub enum InputView {
    Blank,
    Get { key: Seq<char> },
    Put { key: Seq<char>, value: Seq<char> },
    SetEx { key: Seq<char>, ttl_ms: u32, value: Seq<char> },
    Del { key: Seq<char> },
    BadSetEx,
    Incomplete(Seq<char>),
    Help,
    Quit,
    Unknown(Seq<char>),
}

impl View for Input {
    type V = InputView;

    open spec fn view(&self) -> InputView {
        match *self {
            Input::Blank => InputView::Blank,
            Input::Get { key } => InputView::Get { key: key@ },
            Input::Put { key, value } => InputView::Put { key: key@, value: value@ },
            Input::SetEx { key, ttl_ms, value } => InputView::SetEx {
                key: key@,
                ttl_ms,
                value: value@,
            },
            Input::Del { key } => InputView::Del { key: key@ },
            Input::BadSetEx => InputView::BadSetEx,
            Input::Incomplete(name) => InputView::Incomplete(name@),
            Input::Help => InputView::Help,
            Input::Quit => InputView::Quit,
            Input::Unknown(name) => InputView::Unknown(name@),
        }
    }
}

/// Whether a character is white space in Unicode.
pub open spec fn is_space(c: char) -> bool {
    let n = c as u32;
    ||| 9 <= n <= 13
    ||| n == 0x20
    ||| n == 0x85
    ||| n == 0xa0
    ||| n == 0x1680
    ||| 0x2000 <= n <= 0x200a
    ||| n == 0x2028
    ||| n == 0x2029
    ||| n == 0x202f
    ||| n == 0x205f
    ||| n == 0x3000
}

/// A text without the white space at its ends.
pub open spec fn trimmed(s: Seq<char>) -> Seq<char>
    decreases s.len(),
{
    if s.len() > 0 && is_space(s[0]) {
        trimmed(s.skip(1))
    } else if s.len() > 0 && is_space(s.last()) {
        trimmed(s.drop_last())
    } else {
        s
    }
}

/// What stands in front of the first blank, and what behind it; `None` behind
/// where there is no blank.
pub open spec fn split_at_blank(s: Seq<char>) -> (Seq<char>, Option<Seq<char>>)
    decreases s.len(),
{
    if s.len() == 0 {
        (s, None)
    } else if s[0] == ' ' {
        (Seq::empty(), Some(s.skip(1)))
    } else {
        let (front, behind) = split_at_blank(s.skip(1));
        (seq![s[0]] + front, behind)
    }
}

/// A character in lower case, where it is an ASCII letter.
pub open spec fn lower(c: char) -> char {
    if 'A' <= c <= 'Z' {
        ((c as u8 + 32) as u8) as char
    } else {
        c
    }
}

/// A text in lower case, as far as its letters are ASCII.
pub open spec fn lowered(s: Seq<char>) -> Seq<char> {
    s.map_values(|c: char| lower(c))
}

/// The time to live that a text spells.
pub open spec fn ttl_of(s: Seq<char>) -> Option<nat> {
    if forall|i: int| 0 <= i < s.len() ==> (#[trigger] s[i] as u32) < 128 {
        unsigned(ascii(s), u32::MAX as nat)
    } else {
        None
    }
}

/// What a `setex` asks for: `<key> <ttl_ms> <value...>`.
pub open spec fn setex_input(rest: Seq<char>) -> InputView {
    match split_at_blank(rest) {
        (key, Some(more)) => {
            let (ttl, value) = split_at_blank(more);
            match ttl_of(ttl) {
                Some(n) => InputView::SetEx {
                    key,
                    ttl_ms: n as u32,
                    value: match value {
                        Some(v) => v,
                        None => Seq::empty(),
                    },
                },
                None => InputView::BadSetEx,
            }
        },
        (_, None) => InputView::BadSetEx,
    }
}

/// What a line asks for: a command, in upper or lower case, and after a blank
/// what it is about.
pub open spec fn input_of(line: Seq<char>) -> InputView {
    let text = trimmed(line);
    let (name, behind) = split_at_blank(text);
    let rest = match behind {
        Some(r) => trimmed(r),
        None => Seq::empty(),
    };
    let cmd = lowered(name);
    if text.len() == 0 {
        InputView::Blank
    } else if cmd == "get"@ && rest.len() > 0 {
        InputView::Get { key: rest }
    } else if cmd == "set"@ && rest.len() > 0 {
        let (key, value) = split_at_blank(rest);
        InputView::Put {
            key,
            value: match value {
                Some(v) => v,
                None => Seq::empty(),
            },
        }
    } else if cmd == "setex"@ && rest.len() > 0 {
        setex_input(rest)
    } else if cmd == "del"@ && rest.len() > 0 {
        InputView::Del { key: rest }
    } else if cmd == "get"@ || cmd == "set"@ || cmd == "del"@ {
        InputView::Incomplete(name)
    } else if cmd == "help"@ {
        InputView::Help
    } else if cmd == "quit"@ || cmd == "exit"@ {
        InputView::Quit
    } else {
        InputView::Unknown(cmd)
    }
}

/// Whether a character is white space in Unicode.
fn space(c: char) -> (r: bool)
    ensures
        r == is_space(c),
{
    let n: u32 = c as u32;
    (9 <= n && n <= 13) || n == 0x20 || n == 0x85 || n == 0xa0 || n == 0x1680 || (0x2000 <= n && n
        <= 0x200a) || n == 0x2028 || n == 0x2029 || n == 0x202f || n == 0x205f || n == 0x3000
}

/// A text without the white space at its ends.
fn trim(s: &[char]) -> (r: &[char])
    ensures
        r@ == trimmed(s@),
{
    let mut from: usize = 0;
    let mut to: usize = s.len();
    assert(s@.subrange(0, to as int) =~= s@);
    while from < to && space(s[from])
        invariant
            from <= to == s.len(),
            trimmed(s@) == trimmed(s@.subrange(from as int, to as int)),
        decreases to - from,
    {
        let ghost part = s@.subrange(from as int, to as int);
        assert(part.skip(1) =~= s@.subrange(from + 1, to as int));
        from = from + 1;
    }
    while from < to && space(s[to - 1])
        invariant
            from <= to <= s.len(),
            from < to ==> !is_space(s@[from as int]),
            trimmed(s@) == trimmed(s@.subrange(from as int, to as int)),
        decreases to - from,
    {
        let ghost part = s@.subrange(from as int, to as int);
        assert(part.drop_last() =~= s@.subrange(from as int, to - 1));
        to = to - 1;
    }
    let ghost part = s@.subrange(from as int, to as int);
    assert(from < to ==> part.last() == s@[to - 1]);
    &s[from..to]
}

/// What stands in front of the first blank, and what behind it.
fn split(s: &[char]) -> (r: (&[char], Option<&[char]>))
    ensures
        match r.1 {
            Some(behind) => split_at_blank(s@) == (r.0@, Some(behind@)),
            None => split_at_blank(s@) == (r.0@, None::<Seq<char>>),
        },
{
    let mut i: usize = 0;
    assert(s@.skip(0) =~= s@);
    assert(s@.take(0) + split_at_blank(s@).0 =~= split_at_blank(s@).0);
    while i < s.len()
        invariant
            i <= s.len(),
            split_at_blank(s@) == (
                s@.take(i as int) + split_at_blank(s@.skip(i as int)).0,
                split_at_blank(s@.skip(i as int)).1,
            ),
        decreases s.len() - i,
    {
        let ghost tail = s@.skip(i as int);
        assert(tail[0] == s@[i as int]);
        assert(tail.skip(1) =~= s@.skip(i + 1));
        if s[i] == ' ' {
            let front: &[char] = &s[0..i];
            let behind: &[char] = &s[i + 1..s.len()];
            assert(front@ =~= s@.take(i as int) + Seq::<char>::empty());
            assert(behind@ =~= s@.skip(i + 1));
            return (front, Some(behind));
        }
        assert(s@.take(i + 1) + split_at_blank(s@.skip(i + 1)).0 =~= s@.take(i as int) + (
        seq![s@[i as int]] + split_at_blank(s@.skip(i + 1)).0));
        i = i + 1;
    }
    let front: &[char] = &s[0..s.len()];
    assert(s@.skip(i as int) =~= Seq::empty());
    assert(front@ =~= s@.take(i as int) + Seq::<char>::empty());
    (front, None)
}

/// A text in lower case, as far as its letters are ASCII.
fn to_lower(s: &[char]) -> (r: Vec<char>)
    ensures
        r@ == lowered(s@),
{
    let mut r: Vec<char> = Vec::new();
    for i in 0..s.len()
        invariant
            r@ == lowered(s@.take(i as int)),
    {
        let c: char = s[i];
        let low: char = if 'A' <= c && c <= 'Z' {
            (c as u8 + 32) as char
        } else {
            c
        };
        r.push(low);
        assert(s@.take(i + 1) =~= s@.take(i as int).push(c));
        assert(r@ =~= lowered(s@.take(i + 1)));
    }
    assert(s@.take(s@.len() as int) =~= s@);
    r
}

/// The time to live that a text spells.
fn parse_ttl(s: &[char]) -> (r: Option<u32>)
    ensures
        match r {
            Some(n) => ttl_of(s@) == Some(n as nat),
            None => ttl_of(s@) is None,
        },
{
    let mut raw: Vec<u8> = Vec::new();
    for i in 0..s.len()
        invariant
            raw@ == ascii(s@.take(i as int)),
            forall|j: int| 0 <= j < i ==> (#[trigger] s@[j] as u32) < 128,
    {
        let c: char = s[i];
        if c as u32 >= 128 {
            assert(s@[i as int] as u32 >= 128);
            return None;
        }
        raw.push(c as u8);
        assert(raw@ =~= ascii(s@.take(i + 1)));
    }
    assert(s@.take(s@.len() as int) =~= s@);
    match parse_unsigned(raw.as_slice(), 0xffff_ffff) {
        Some(n) => Some(n as u32),
        None => None,
    }
}

/// A copy of a text.
fn copied(s: &[char]) -> (r: Vec<char>)
    ensures
        r@ == s@,
{
    let mut r: Vec<char> = Vec::new();
    r.extend_from_slice(s);
    assert(r@ =~= s@);
    r
}

/// Whether `s` spells a text.
fn spells(s: &Vec<char>, text: &str) -> (same: bool)
    ensures
        same == (s@ == text@),
{
    let mut i: usize = 0;
    for c in it: text.chars()
        invariant
            it.seq() == text@,
            i == it.index(),
            i <= s@.len(),
            forall|j: int| 0 <= j < i ==> s@[j] == text@[j],
    {
        if i >= s.len() || s[i] != c {
            return false;
        }
        i = i + 1;
    }
    if i != s.len() {
        return false;
    }
    assert(s@ =~= text@);
    true
}

/// Reads a line.
pub fn parse_line(line: &[char]) -> (r: Input)
    ensures
        r@ == input_of(line@),
{
    let text: &[char] = trim(line);
    if text.len() == 0 {
        return Input::Blank;
    }
    let (name, behind) = split(text);
    let rest: &[char] = match behind {
        Some(r) => trim(r),
        None => &text[0..0],
    };
    assert(behind is None ==> rest@ =~= Seq::empty());
    let cmd: Vec<char> = to_lower(name);
    if spells(&cmd, "get") && rest.len() > 0 {
        Input::Get { key: copied(rest) }
    } else if spells(&cmd, "set") && rest.len() > 0 {
        let (key, value) = split(rest);
        Input::Put { key: copied(key), value: or_empty(value) }
    } else if spells(&cmd, "setex") && rest.len() > 0 {
        parse_setex(rest)
    } else if spells(&cmd, "del") && rest.len() > 0 {
        Input::Del { key: copied(rest) }
    } else if spells(&cmd, "get") || spells(&cmd, "set") || spells(&cmd, "del") {
        Input::Incomplete(copied(name))
    } else if spells(&cmd, "help") {
        Input::Help
    } else if spells(&cmd, "quit") || spells(&cmd, "exit") {
        Input::Quit
    } else {
        Input::Unknown(cmd)
    }
}

/// A copy of a text that may be missing.
fn or_empty(s: Option<&[char]>) -> (r: Vec<char>)
    ensures
        r@ == match s {
            Some(t) => t@,
            None => Seq::empty(),
        },
{
    match s {
        Some(t) => copied(t),
        None => Vec::new(),
    }
}

/// Reads what follows `setex`.
fn parse_setex(rest: &[char]) -> (r: Input)
    ensures
        r@ == setex_input(rest@),
{
    let (key, behind) = split(rest);
    match behind {
        Some(more) => {
            let (ttl, value) = split(more);
            match parse_ttl(ttl) {
                Some(ttl_ms) => Input::SetEx { key: copied(key), ttl_ms, value: or_empty(value) },
                None => Input::BadSetEx,
            }
        },
        None => Input::BadSetEx,
    }
}

/// White space is what Unicode calls white space: the tabulator and line controls,
/// the blank, and the other separators.
pub proof fn law_white_space(c: char)
    ensures
        is_space(c) <==> {
            let n = c as u32;
            (0x9 <= n <= 0xd) || n == 0x20 || n == 0x85 || n == 0xa0 || n == 0x1680 || (0x2000 <= n
                <= 0x200a) || n == 0x2028 || n == 0x2029 || n == 0x202f || n == 0x205f || n
                == 0x3000
        },
{
}

/// Trimming cuts white space and nothing else off both ends, and all of it: with
/// white space around a text that has none at its ends, the text is what is left.
pub proof fn law_trimming_leaves_the_text(before: Seq<char>, text: Seq<char>, after: Seq<char>)
    requires
        forall|i: int| 0 <= i < before.len() ==> is_space(#[trigger] before[i]),
        forall|i: int| 0 <= i < after.len() ==> is_space(#[trigger] after[i]),
        text.len() > 0 ==> !is_space(text[0]) && !is_space(text.last()),
    ensures
        trimmed(before + text + after) == text,
    decreases before.len() + after.len(),
{
    let s = before + text + after;
    if before.len() > 0 {
        let b = before.skip(1);
        assert(is_space(before[0]));
        assert(s[0] == before[0]);
        assert(s.skip(1) =~= b + text + after);
        assert forall|i: int| 0 <= i < b.len() implies is_space(#[trigger] b[i]) by {
            assert(is_space(before[i + 1]));
        }
        law_trimming_leaves_the_text(b, text, after);
    } else if after.len() > 0 {
        if text.len() > 0 {
            let a = after.drop_last();
            assert(is_space(after[after.len() - 1]));
            assert(s.last() == after[after.len() - 1]);
            assert(s[0] == text[0]);
            assert(s.drop_last() =~= before + text + a);
            assert forall|i: int| 0 <= i < a.len() implies is_space(#[trigger] a[i]) by {
                assert(is_space(after[i]));
            }
            law_trimming_leaves_the_text(before, text, a);
        } else {
            let a = after.skip(1);
            assert(is_space(after[0]));
            assert(s[0] == after[0]);
            assert(s.skip(1) =~= before + text + a);
            assert forall|i: int| 0 <= i < a.len() implies is_space(#[trigger] a[i]) by {
                assert(is_space(after[i + 1]));
            }
            law_trimming_leaves_the_text(before, text, a);
        }
    } else {
        assert(s =~= text);
    }
}

/// A text is split at its first blank: what stands in front of it has none, and
/// what stands behind it is left as it is.
pub proof fn law_split_at_the_first_blank(front: Seq<char>, behind: Seq<char>)
    requires
        forall|i: int| 0 <= i < front.len() ==> #[trigger] front[i] != ' ',
    ensures
        split_at_blank(front) == (front, None::<Seq<char>>),
        split_at_blank(front + seq![' '] + behind) == (front, Some(behind)),
    decreases front.len(),
{
    let s = front + seq![' '] + behind;
    if front.len() == 0 {
        assert(s[0] == ' ');
        assert(s.skip(1) =~= behind);
        assert(front =~= Seq::empty());
    } else {
        let f = front.skip(1);
        assert(front[0] != ' ');
        assert forall|i: int| 0 <= i < f.len() implies #[trigger] f[i] != ' ' by {
            assert(front[i + 1] != ' ');
        }
        law_split_at_the_first_blank(f, behind);
        assert(s.skip(1) =~= f + seq![' '] + behind);
        assert(s[0] == front[0]);
        assert(seq![front[0]] + f =~= front);
    }
}

/// Lower case: the letters from A to Z become those from a to z, and every other
/// character stays.
pub proof fn law_lower_case(s: Seq<char>, i: int)
    requires
        0 <= i < s.len(),
    ensures
        lowered(s).len() == s.len(),
        'A' <= s[i] <= 'Z' ==> lowered(s)[i] as u32 == s[i] as u32 + 32,
        !('A' <= s[i] <= 'Z') ==> lowered(s)[i] == s[i],
{
}

/// A time to live is an unsigned number of 32 bits, in ASCII.
pub proof fn law_ttl_is_a_number(s: Seq<char>, i: int)
    ensures
        (forall|j: int| 0 <= j < s.len() ==> (#[trigger] s[j] as u32) < 128) ==> ttl_of(s)
            == unsigned(ascii(s), 0xffff_ffff),
        0 <= i < s.len() && s[i] as u32 >= 128 ==> ttl_of(s) is None,
{
}

/// Where the first blank of a line stands, there its command ends.
proof fn lemma_command_line(name: Seq<char>, tail: Seq<char>)
    requires
        forall|i: int| 0 <= i < name.len() ==> #[trigger] name[i] != ' ',
        name.len() > 0,
        !is_space(name[0]),
        tail.len() > 0,
        !is_space(tail.last()),
    ensures
        trimmed(name + seq![' '] + tail) == name + seq![' '] + tail,
        split_at_blank(name + seq![' '] + tail) == (name, Some(tail)),
{
    let line = name + seq![' '] + tail;
    assert(line[0] == name[0]);
    assert(line.last() == tail.last());
    law_split_at_the_first_blank(name, tail);
}

/// What a line asks for that has a command and, behind a blank, what it is about:
/// the command counts in upper and lower case, and the white space around the rest
/// does not count.
pub proof fn law_line_with_argument(name: Seq<char>, pad: Seq<char>, rest: Seq<char>)
    requires
        name.len() > 0,
        !is_space(name[0]),
        forall|i: int| 0 <= i < name.len() ==> #[trigger] name[i] != ' ',
        forall|i: int| 0 <= i < pad.len() ==> is_space(#[trigger] pad[i]),
        rest.len() > 0,
        !is_space(rest[0]),
        !is_space(rest.last()),
    ensures
        ({
            let line = name + seq![' '] + (pad + rest);
            let cmd = lowered(name);
            &&& cmd == "get"@ ==> input_of(line) == (InputView::Get { key: rest })
            &&& cmd == "del"@ ==> input_of(line) == (InputView::Del { key: rest })
            &&& cmd == "set"@ ==> (input_of(line) matches InputView::Put { key, value } && {
                &&& forall|i: int| 0 <= i < key.len() ==> #[trigger] key[i] != ' '
                &&& rest == key + seq![' '] + value || (rest == key && value.len() == 0)
            })
            &&& cmd == "setex"@ ==> input_of(line) == setex_input(rest)
            &&& cmd == "help"@ ==> input_of(line) == InputView::Help
            &&& cmd == "quit"@ || cmd == "exit"@ ==> input_of(line) == InputView::Quit
            &&& cmd != "get"@ && cmd != "set"@ && cmd != "setex"@ && cmd != "del"@ && cmd != "help"@
                && cmd != "quit"@ && cmd != "exit"@ ==> input_of(line) == InputView::Unknown(cmd)
        }),
{
    lemma_command_texts();
    let tail = pad + rest;
    assert(tail.last() == rest.last());
    lemma_command_line(name, tail);
    law_trimming_leaves_the_text(pad, rest, Seq::empty());
    assert(pad + rest + Seq::<char>::empty() =~= tail);
    lemma_split_is_whole(rest);
}

/// The two parts of a text that is split make up the text.
proof fn lemma_split_is_whole(s: Seq<char>)
    ensures
        ({
            let (front, behind) = split_at_blank(s);
            &&& forall|i: int| 0 <= i < front.len() ==> #[trigger] front[i] != ' '
            &&& match behind {
                Some(b) => s == front + seq![' '] + b,
                None => s == front,
            }
        }),
    decreases s.len(),
{
    if s.len() > 0 && s[0] != ' ' {
        let t = s.skip(1);
        lemma_split_is_whole(t);
        let (f, behind) = split_at_blank(t);
        let front = seq![s[0]] + f;
        assert forall|i: int| 0 <= i < front.len() implies #[trigger] front[i] != ' ' by {
            if i > 0 {
                assert(front[i] == f[i - 1]);
            }
        }
        match behind {
            Some(b) => {
                assert(t == f + seq![' '] + b);
                assert(s =~= seq![s[0]] + t);
                assert(seq![s[0]] + (f + seq![' '] + b) =~= front + seq![' '] + b);
            },
            None => {
                assert(s =~= front);
            },
        }
    } else if s.len() > 0 {
        assert(s =~= Seq::<char>::empty() + seq![' '] + s.skip(1));
    }
}

/// The commands are different texts.
proof fn lemma_command_texts()
    ensures
        "get"@.len() == 3,
        "set"@.len() == 3,
        "del"@.len() == 3,
        "setex"@.len() == 5,
        "help"@.len() == 4,
        "quit"@.len() == 4,
        "exit"@.len() == 4,
        "get"@ != "set"@,
        "get"@ != "del"@,
        "set"@ != "del"@,
        "help"@ != "quit"@,
        "help"@ != "exit"@,
{
    reveal_strlit("get");
    reveal_strlit("set");
    reveal_strlit("del");
    reveal_strlit("setex");
    reveal_strlit("help");
    reveal_strlit("quit");
    reveal_strlit("exit");
    assert("get"@[0] == 'g' && "set"@[0] == 's' && "del"@[0] == 'd');
    assert("help"@[0] == 'h' && "quit"@[0] == 'q' && "exit"@[0] == 'e');
}

/// Lower case leaves these commands as they are.
proof fn lemma_lower_commands()
    ensures
        lowered("get"@) == "get"@,
        lowered("set"@) == "set"@,
        lowered("setex"@) == "setex"@,
        lowered("del"@) == "del"@,
        forall|i: int| 0 <= i < "get"@.len() ==> #[trigger] "get"@[i] != ' ',
        forall|i: int| 0 <= i < "set"@.len() ==> #[trigger] "set"@[i] != ' ',
        forall|i: int| 0 <= i < "setex"@.len() ==> #[trigger] "setex"@[i] != ' ',
        forall|i: int| 0 <= i < "del"@.len() ==> #[trigger] "del"@[i] != ' ',
{
    reveal_strlit("get");
    reveal_strlit("set");
    reveal_strlit("setex");
    reveal_strlit("del");
    assert(lowered("get"@) =~= "get"@);
    assert(lowered("set"@) =~= "set"@);
    assert(lowered("setex"@) =~= "setex"@);
    assert(lowered("del"@) =~= "del"@);
}

/// `get` and `del` ask for exactly the text behind them.
pub proof fn law_get_and_del_lines(key: Seq<char>)
    requires
        key.len() > 0,
        !is_space(key[0]),
        !is_space(key.last()),
    ensures
        input_of("get"@ + seq![' '] + key) == (InputView::Get { key }),
        input_of("del"@ + seq![' '] + key) == (InputView::Del { key }),
{
    lemma_command_texts();
    lemma_lower_commands();
    reveal_strlit("get");
    reveal_strlit("del");
    let none = Seq::<char>::empty();
    assert(none + key =~= key);
    law_line_with_argument("get"@, none, key);
    law_line_with_argument("del"@, none, key);
}

/// `set` gives back its key, which ends at the first blank, and the value behind
/// it; without a blank the value is empty.
pub proof fn law_set_lines(key: Seq<char>, value: Seq<char>)
    requires
        key.len() > 0,
        !is_space(key[0]),
        !is_space(key.last()),
        forall|i: int| 0 <= i < key.len() ==> #[trigger] key[i] != ' ',
        value.len() > 0,
        !is_space(value.last()),
    ensures
        input_of("set"@ + seq![' '] + (key + seq![' '] + value)) == (InputView::Put { key, value }),
        input_of("set"@ + seq![' '] + key) == (InputView::Put { key, value: Seq::empty() }),
{
    lemma_command_texts();
    lemma_lower_commands();
    reveal_strlit("set");
    let none = Seq::<char>::empty();
    let rest = key + seq![' '] + value;
    assert(none + rest + none =~= rest);
    assert(none + key + none =~= key);
    assert(rest[0] == key[0]);
    assert(rest.last() == value.last());
    lemma_command_line("set"@, rest);
    lemma_command_line("set"@, key);
    law_trimming_leaves_the_text(none, rest, none);
    law_trimming_leaves_the_text(none, key, none);
    law_split_at_the_first_blank(key, value);
}

/// `setex` gives back its key, its time to live and its value; where the middle is
/// no number, it is refused.
pub proof fn law_setex_lines(key: Seq<char>, ttl: Seq<char>, value: Seq<char>)
    requires
        key.len() > 0,
        !is_space(key[0]),
        forall|i: int| 0 <= i < key.len() ==> #[trigger] key[i] != ' ',
        forall|i: int| 0 <= i < ttl.len() ==> #[trigger] ttl[i] != ' ',
        value.len() > 0,
        !is_space(value.last()),
    ensures
        ({
            let rest = key + seq![' '] + (ttl + seq![' '] + value);
            let line = "setex"@ + seq![' '] + rest;
            match ttl_of(ttl) {
                Some(n) => input_of(line) == (InputView::SetEx { key, ttl_ms: n as u32, value }),
                None => input_of(line) == InputView::BadSetEx,
            }
        }),
{
    lemma_command_texts();
    lemma_lower_commands();
    reveal_strlit("setex");
    let none = Seq::<char>::empty();
    let more = ttl + seq![' '] + value;
    let rest = key + seq![' '] + more;
    assert(none + rest + none =~= rest);
    assert(rest[0] == key[0]);
    assert(rest.last() == value.last());
    lemma_command_line("setex"@, rest);
    law_trimming_leaves_the_text(none, rest, none);
    law_split_at_the_first_blank(key, more);
    law_split_at_the_first_blank(ttl, value);
}

/// A `setex` without a value stores an empty one; without a time to live it is
/// refused.
pub proof fn law_short_setex_lines(key: Seq<char>, ttl: Seq<char>)
    requires
        forall|i: int| 0 <= i < key.len() ==> #[trigger] key[i] != ' ',
        forall|i: int| 0 <= i < ttl.len() ==> #[trigger] ttl[i] != ' ',
    ensures
        setex_input(key) == InputView::BadSetEx,
        match ttl_of(ttl) {
            Some(n) => setex_input(key + seq![' '] + ttl) == (InputView::SetEx {
                key,
                ttl_ms: n as u32,
                value: Seq::empty(),
            }),
            None => setex_input(key + seq![' '] + ttl) == InputView::BadSetEx,
        },
{
    law_split_at_the_first_blank(key, ttl);
    law_split_at_the_first_blank(ttl, key);
}

/// White space around a line does not count.
pub proof fn law_lines_are_trimmed(before: Seq<char>, text: Seq<char>, after: Seq<char>)
    requires
        forall|i: int| 0 <= i < before.len() ==> is_space(#[trigger] before[i]),
        forall|i: int| 0 <= i < after.len() ==> is_space(#[trigger] after[i]),
        text.len() > 0 ==> !is_space(text[0]) && !is_space(text.last()),
    ensures
        input_of(before + text + after) == input_of(text),
        text.len() == 0 ==> input_of(text) == InputView::Blank,
{
    law_trimming_leaves_the_text(before, text, after);
    let none = Seq::<char>::empty();
    law_trimming_leaves_the_text(none, text, none);
    assert(none + text + none =~= text);
}

/// A line with a command alone: `get`, `set` and `del` lack their key and are
/// named as they were typed; `help`, `quit` and `exit` need none; anything else,
/// `setex` too, is unknown and named in lower case.
pub proof fn law_line_without_argument(name: Seq<char>)
    requires
        name.len() > 0,
        !is_space(name[0]),
        !is_space(name.last()),
        forall|i: int| 0 <= i < name.len() ==> #[trigger] name[i] != ' ',
    ensures
        ({
            let cmd = lowered(name);
            &&& cmd == "get"@ || cmd == "set"@ || cmd == "del"@ ==> input_of(name)
                == InputView::Incomplete(name)
            &&& cmd == "help"@ ==> input_of(name) == InputView::Help
            &&& cmd == "quit"@ || cmd == "exit"@ ==> input_of(name) == InputView::Quit
            &&& cmd != "get"@ && cmd != "set"@ && cmd != "del"@ && cmd != "help"@ && cmd != "quit"@
                && cmd != "exit"@ ==> input_of(name) == InputView::Unknown(cmd)
        }),
{
    lemma_command_texts();
    law_split_at_the_first_blank(name, name);
}

/// The arguments of the shell are read from the first on, each flag with its
/// value.
pub proof fn law_options_in_order(
    opts: OptionsView,
    arg: Seq<char>,
    value: Seq<char>,
    rest: Seq<Seq<char>>,
)
    ensures
        parsed_options(opts, Seq::empty()) == Some(opts),
        arg == "-h"@ || arg == "--help"@ ==> parsed_options(opts, seq![arg] + rest) is None,
        arg == "--addr"@ ==> {
            &&& parsed_options(opts, seq![arg]) == Some(opts)
            &&& parsed_options(opts, seq![arg, value] + rest) == parsed_options(
                OptionsView { addr: value, ..opts },
                rest,
            )
        },
        arg == "--user"@ ==> {
            &&& parsed_options(opts, seq![arg]) == Some(
                OptionsView { user: Seq::empty(), ..opts },
            )
            &&& parsed_options(opts, seq![arg, value] + rest) == parsed_options(
                OptionsView { user: value, ..opts },
                rest,
            )
        },
        arg == "--pass"@ ==> {
            &&& parsed_options(opts, seq![arg]) == Some(
                OptionsView { pass: Seq::empty(), ..opts },
            )
            &&& parsed_options(opts, seq![arg, value] + rest) == parsed_options(
                OptionsView { pass: value, ..opts },
                rest,
            )
        },
        arg != "-h"@ && arg != "--help"@ && arg != "--addr"@ && arg != "--user"@ && arg != "--pass"@
            ==> parsed_options(opts, seq![arg] + rest) == parsed_options(
            OptionsView { addr: arg, ..opts },
            rest,
        ),
        default_addr() == "127.0.0.1:8383"@,
{
    reveal_strlit("-h");
    reveal_strlit("--help");
    reveal_strlit("--addr");
    reveal_strlit("--user");
    reveal_strlit("--pass");
    assert("-h"@.len() == 2 && "--help"@.len() == 6 && "--addr"@.len() == 6);
    assert("--user"@.len() == 6 && "--pass"@.len() == 6);
    assert("--help"@[2] == 'h' && "--addr"@[2] == 'a' && "--user"@[2] == 'u' && "--pass"@[2]
        == 'p');
    assert((seq![arg] + rest)[0] == arg);
    assert((seq![arg] + rest).skip(1) =~= rest);
    assert((seq![arg, value] + rest)[0] == arg);
    assert((seq![arg, value] + rest)[1] == value);
    assert((seq![arg, value] + rest).skip(2) =~= rest);
}

/// What the contracts say of lines and options is what they hold.
pub proof fn law_inputs_are_what_they_hold(
    key: Vec<char>,
    value: Vec<char>,
    ttl_ms: u32,
    opts: Options,
)
    ensures
        Input::Blank@ == InputView::Blank,
        (Input::Get { key })@ == (InputView::Get { key: key@ }),
        (Input::Put { key, value })@ == (InputView::Put { key: key@, value: value@ }),
        (Input::SetEx { key, ttl_ms, value })@ == (InputView::SetEx {
            key: key@,
            ttl_ms,
            value: value@,
        }),
        (Input::Del { key })@ == (InputView::Del { key: key@ }),
        Input::BadSetEx@ == InputView::BadSetEx,
        Input::Incomplete(key)@ == InputView::Incomplete(key@),
        Input::Help@ == InputView::Help,
        Input::Quit@ == InputView::Quit,
        Input::Unknown(key)@ == InputView::Unknown(key@),
        opts@.addr == opts.addr@,
        opts@.user == opts.user@,
        opts@.pass == opts.pass@,
{
}

} // verus!
