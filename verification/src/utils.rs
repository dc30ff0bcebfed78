//! Writing numbers and times as text.

use vstd::prelude::*;
use vstd::string::StringExecFns;

verus! {

/// The character for one decimal digit.
pub open spec fn digit_char(d: int) -> char {
    if d == 0 {
        '0'
    } else if d == 1 {
        '1'
    } else if d == 2 {
        '2'
    } else if d == 3 {
        '3'
    } else if d == 4 {
        '4'
    } else if d == 5 {
        '5'
    } else if d == 6 {
        '6'
    } else if d == 7 {
        '7'
    } else if d == 8 {
        '8'
    } else {
        '9'
    }
}

/// A number in decimal notation, with no leading zeros.
pub open spec fn decimal(n: nat) -> Seq<char>
    decreases n,
{
    if n < 10 {
        seq![digit_char(n as int)]
    } else {
        decimal(n / 10).push(digit_char((n % 10) as int))
    }
}

/// The last `width` decimal digits of a number, with leading zeros.
pub open spec fn fixed_decimal(n: nat, width: nat) -> Seq<char>
    decreases width,
{
    if width == 0 {
        Seq::empty()
    } else {
        fixed_decimal(n / 10, (width - 1) as nat).push(digit_char((n % 10) as int))
    }
}

/// A time of `t` nanoseconds in whole microseconds, rounded to the nearest;
/// a half is rounded up.
pub open spec fn rounded_micros(t: u64) -> nat {
    ((t + 500) / 1000) as nat
}

/// A time in seconds, with six decimal places.
pub open spec fn duration_text(t: u64) -> Seq<char> {
    decimal(rounded_micros(t) / 1_000_000) + seq!['.'] + fixed_decimal(
        rounded_micros(t) % 1_000_000,
        6,
    )
}

/// A number of billionths as a decimal number with nine decimal places,
/// with a minus sign in front where it is negative.
pub open spec fn fixed_text(v: int) -> Seq<char> {
    let size = if v < 0 {
        -v
    } else {
        v
    };
    let sign = if v < 0 {
        seq!['-']
    } else {
        Seq::<char>::empty()
    };
    sign + decimal((size / 1_000_000_000) as nat) + seq!['.'] + fixed_decimal(
        (size % 1_000_000_000) as nat,
        9,
    )
}

/// The arguments with which the trimming tool cuts the range from `start`
/// to `end` out of the file `source` and writes it to `target`, replacing
/// what is there.
pub open spec fn trim_arguments_text(
    source: Seq<char>,
    target: Seq<char>,
    start: u64,
    end: u64,
) -> Seq<Seq<char>> {
    seq![
        "-hide_banner"@,
        "-nostats"@,
        "-y"@,
        "-i"@,
        source,
        "-ss"@,
        duration_text(start),
        "-to"@,
        duration_text(end),
        target,
    ]
}

/// The name of the span with the given id in a track called `file_name`.
pub open spec fn span_name_text(file_name: Seq<char>, id: u32) -> Seq<char> {
    file_name + seq!['_'] + decimal(id as nat)
}

fn digit_str(d: u64) -> (s: &'static str)
    requires
        d < 10,
    ensures
        s@ == seq![digit_char(d as int)],
{
    proof {
        reveal_strlit("0");
        reveal_strlit("1");
        reveal_strlit("2");
        reveal_strlit("3");
        reveal_strlit("4");
        reveal_strlit("5");
        reveal_strlit("6");
        reveal_strlit("7");
        reveal_strlit("8");
        reveal_strlit("9");
    }
    let s = if d == 0 {
        "0"
    } else if d == 1 {
        "1"
    } else if d == 2 {
        "2"
    } else if d == 3 {
        "3"
    } else if d == 4 {
        "4"
    } else if d == 5 {
        "5"
    } else if d == 6 {
        "6"
    } else if d == 7 {
        "7"
    } else if d == 8 {
        "8"
    } else {
        "9"
    };
    assert(s@ =~= seq![digit_char(d as int)]);
    s
}

/// Appends `n` in decimal notation to `out`.
pub fn push_decimal(out: &mut String, n: u64)
    ensures
        final(out)@ == old(out)@ + decimal(n as nat),
    decreases n,
{
    if n >= 10 {
        push_decimal(out, n / 10);
    }
    out.append(digit_str(n % 10));
    assert(out@ =~= old(out)@ + decimal(n as nat));
}

/// Appends the last `width` decimal digits of `n` to `out`.
pub fn push_fixed_decimal(out: &mut String, n: u64, width: u32)
    ensures
        final(out)@ == old(out)@ + fixed_decimal(n as nat, width as nat),
    decreases width,
{
    if width > 0 {
        push_fixed_decimal(out, n / 10, width - 1);
        out.append(digit_str(n % 10));
    }
    assert(out@ =~= old(out)@ + fixed_decimal(n as nat, width as nat));
}

/// Writes a time as seconds with six decimal places, the form in which trim
/// bounds are handed on.
pub fn fmt_duration(duration: u64) -> (text: String)
    ensures
        text@ == duration_text(duration),
{
    let whole: u64 = duration / 1_000_000_000;
    let rest: u64 = duration % 1_000_000_000;
    let micros: u64 = (rest + 500) / 1000;
    let (secs, micros): (u64, u64) = if micros == 1_000_000 {
        (whole + 1, 0)
    } else {
        (whole, micros)
    };
    assert(secs == rounded_micros(duration) / 1_000_000);
    assert(micros == rounded_micros(duration) % 1_000_000);
    let mut text = String::new();
    push_decimal(&mut text, secs);
    proof {
        reveal_strlit(".");
    }
    text.append(".");
    push_fixed_decimal(&mut text, micros, 6);
    assert(text@ =~= duration_text(duration));
    text
}

/// Appends a number of billionths as a decimal number with nine decimal
/// places.
pub fn push_fixed(out: &mut String, size: u64)
    ensures
        final(out)@ == old(out)@ + fixed_text(size as int),
{
    push_decimal(out, size / 1_000_000_000);
    proof {
        reveal_strlit(".");
    }
    out.append(".");
    push_fixed_decimal(out, size % 1_000_000_000, 9);
    assert(out@ =~= old(out)@ + fixed_text(size as int));
}

/// Writes a number of billionths as a decimal number with nine decimal
/// places.
pub fn fmt_fixed(v: i64) -> (text: String)
    ensures
        text@ == fixed_text(v as int),
{
    let mut text = String::new();
    if v < 0 {
        proof {
            reveal_strlit("-");
        }
        text.append("-");
        let size: u64 = (-(v + 1)) as u64 + 1;
        push_fixed(&mut text, size);
        assert(text@ =~= fixed_text(v as int));
    } else {
        push_fixed(&mut text, v as u64);
        assert(text@ =~= fixed_text(v as int));
    }
    text
}

/// The arguments with which the trimming tool cuts the range from `start`
/// to `end` out of the file `source` and writes it to `target`.
pub fn trim_arguments(source: &str, target: &str, start: u64, end: u64) -> (arguments: Vec<String>)
    ensures
        arguments.deep_view() == trim_arguments_text(source@, target@, start, end),
{
    let mut arguments: Vec<String> = Vec::new();
    arguments.push(String::from_str("-hide_banner"));
    arguments.push(String::from_str("-nostats"));
    arguments.push(String::from_str("-y"));
    arguments.push(String::from_str("-i"));
    arguments.push(String::from_str(source));
    arguments.push(String::from_str("-ss"));
    arguments.push(fmt_duration(start));
    arguments.push(String::from_str("-to"));
    arguments.push(fmt_duration(end));
    arguments.push(String::from_str(target));
    assert(arguments.deep_view() =~= trim_arguments_text(source@, target@, start, end));
    arguments
}

/// The name that a span with the given id gets in a track called
/// `file_name`: the track's name, an underscore and the id.
pub fn span_name(file_name: &str, id: u32) -> (name: String)
    ensures
        name@ == span_name_text(file_name@, id),
{
    let mut name = String::from_str(file_name);
    proof {
        reveal_strlit("_");
    }
    name.append("_");
    push_decimal(&mut name, id as u64);
    assert(name@ =~= span_name_text(file_name@, id));
    name
}

} // verus!
