//! What the decoder's command line asks for.
use vstd::prelude::*;
use vstd::slice::slice_subrange;
use crate::text::{chars_of, read_number, same_text};
use crate::text::{dec, digits, digits_value, hex2, number_read, texts_of};
use crate::text::{law_digits_in_order, law_hex_is_read_back, law_number_in_decimal_is_read};
use crate::text::{law_no_other_digits, law_run_holds_digits_only};
use crate::text::law_written_number_is_read_back;

verus! {

/// What to do with the stream.
#[derive(Clone, Copy, Debug, PartialEq, Eq, Structural)]
pub enum Mode {
    /// Print every frame of one type.
    Log { typ: u8 },
    /// Show which bytes of the frames change.
    Watch,
    /// Print the bytes.
    Hexdump,
    /// Summarise the lidar's packets.
    Lds,
    /// Summarise the motor controller's frames.
    Mcu,
}

/// What the arguments ask for.
pub struct Options {
    /// The host, where one is named.
    pub host: Option<String>,
    pub port: u16,
    pub mode: Mode,
}

// ---------------------------------------------------------------------------
// Arguments
// ---------------------------------------------------------------------------
/// The argument is a flag.
pub open spec fn is_flag(s: Seq<char>) -> bool {
    s.len() >= 2 && s[0] == '-' && s[1] == '-'
}

/// The argument behind the first occurrence of `flag`.
pub open spec fn value_after(args: Seq<Seq<char>>, flag: Seq<char>) -> Option<Seq<char>>
    decreases args.len(),
{
    if args.len() == 0 {
        None
    } else if args[0] == flag {
        if args.len() > 1 {
            Some(args[1])
        } else {
            None
        }
    } else {
        value_after(args.skip(1), flag)
    }
}

/// `s` without the `0x` in front of it, however often it stands there.
pub open spec fn without_0x(s: Seq<char>) -> Seq<char>
    decreases s.len(),
{
    if s.len() >= 2 && s[0] == '0' && s[1] == 'x' {
        without_0x(s.skip(2))
    } else {
        s
    }
}

/// The argument behind `flag` is what `flag` takes: a port, or a frame type.
pub open spec fn is_value(flag: Seq<char>, arg: Seq<char>) -> bool {
    ||| flag == "--port"@ && number_read(arg, 10, 65535) is Some
    ||| flag == "--log"@ && number_read(without_0x(arg), 16, 255) is Some
}

/// Argument `i` stands for itself: it is neither a flag nor a flag's value.
pub open spec fn positional(args: Seq<Seq<char>>, i: int) -> bool {
    !is_flag(args[i]) && !(i > 0 && is_value(args[i - 1], args[i]))
}

/// The first positional argument from `i` on.
pub open spec fn host_from(args: Seq<Seq<char>>, i: nat) -> Option<Seq<char>>
    decreases args.len() - i,
{
    if i >= args.len() {
        None
    } else if positional(args, i as int) {
        Some(args[i as int])
    } else {
        host_from(args, i + 1)
    }
}

/// The host that the arguments name: the first positional one.
pub open spec fn host_asked(args: Seq<Seq<char>>) -> Option<Seq<char>> {
    host_from(args, 0)
}

/// The port of the channel that the flags name.
pub open spec fn channel_port_asked(args: Seq<Seq<char>>) -> u16 {
    if args.contains("--mcu-tx"@) {
        7703
    } else if args.contains("--lds"@) {
        7702
    } else if args.contains("--lds-tx"@) {
        7704
    } else {
        7701
    }
}

/// The port: one that is given, else the channel's.
pub open spec fn port_asked(args: Seq<Seq<char>>) -> u16 {
    match value_after(args, "--port"@) {
        Some(v) => match number_read(v, 10, 65535) {
            Some(n) => n as u16,
            None => channel_port_asked(args),
        },
        None => channel_port_asked(args),
    }
}

/// The type of frame to print: one that is given in hexadecimal, else the pose.
pub open spec fn type_asked(args: Seq<Seq<char>>) -> u8 {
    match value_after(args, "--log"@) {
        Some(v) => match number_read(without_0x(v), 16, 255) {
            Some(n) => n as u8,
            None => 1,
        },
        None => 1,
    }
}

/// What to do, but for printing frames.
pub open spec fn view_asked(args: Seq<Seq<char>>) -> Mode {
    if args.contains("--watch"@) {
        Mode::Watch
    } else if args.contains("--raw"@) {
        Mode::Hexdump
    } else if args.contains("--lds"@) || args.contains("--lds-tx"@) {
        Mode::Lds
    } else {
        Mode::Mcu
    }
}

/// What to do.
pub open spec fn mode_asked(args: Seq<Seq<char>>) -> Mode {
    if args.contains("--log"@) {
        Mode::Log { typ: type_asked(args) }
    } else {
        view_asked(args)
    }
}

/// How the announcement calls it.
pub open spec fn label_asked(args: Seq<Seq<char>>) -> Seq<char> {
    match view_asked(args) {
        Mode::Watch => "watch"@,
        Mode::Hexdump => "hexdump"@,
        Mode::Lds => "lds decode"@,
        _ => "decode"@,
    }
}

/// True when `flag` is among the arguments.
pub fn has(args: &Vec<String>, flag: &str) -> (r: bool)
    ensures
        r == texts_of(args@).contains(flag@),
{
    let mut i: usize = 0;
    while i < args.len()
        invariant
            i <= args@.len(),
            forall|j: int| 0 <= j < i ==> #[trigger] texts_of(args@)[j] != flag@,
        decreases args.len() - i,
    {
        if same_text(args[i].as_str(), flag) {
            assert(texts_of(args@)[i as int] == flag@);
            return true;
        }
        i = i + 1;
    }
    false
}

fn begins_as_flag(cs: &Vec<char>) -> (r: bool)
    ensures
        r == is_flag(cs@),
{
    cs.len() >= 2 && cs[0] == '-' && cs[1] == '-'
}

fn read_hex(cs: &Vec<char>) -> (r: Option<u32>)
    ensures
        match (r, number_read(without_0x(cs@), 16, 255)) {
            (Some(a), Some(b)) => a == b,
            (None, None) => true,
            _ => false,
        },
{
    let mut from: usize = 0;
    assert(cs@.skip(0) =~= cs@);
    while cs.len() - from >= 2 && cs[from] == '0' && cs[from + 1] == 'x'
        invariant
            from <= cs@.len(),
            without_0x(cs@) == without_0x(cs@.skip(from as int)),
        decreases cs.len() - from,
    {
        assert(cs@.skip(from as int).skip(2) =~= cs@.skip(from + 2));
        from = from + 2;
    }
    let rest: &[char] = slice_subrange(cs.as_slice(), from, cs.len());
    assert(rest@ =~= cs@.skip(from as int));
    read_number(rest, 16, 255)
}

fn takes(flag: &str, cs: &Vec<char>) -> (r: bool)
    ensures
        r == is_value(flag@, cs@),
{
    if same_text(flag, "--port") && read_number(cs.as_slice(), 10, 65535).is_some() {
        return true;
    }
    same_text(flag, "--log") && read_hex(cs).is_some()
}

/// The host that the arguments name.
pub fn host_named(args: &Vec<String>) -> (r: Option<String>)
    ensures
        match (r, host_asked(texts_of(args@))) {
            (Some(a), Some(b)) => a@ == b,
            (None, None) => true,
            _ => false,
        },
{
    let ghost texts = texts_of(args@);
    let mut i: usize = 0;
    while i < args.len()
        invariant
            i <= args@.len(),
            texts == texts_of(args@),
            host_asked(texts) == host_from(texts, i as nat),
        decreases args.len() - i,
    {
        let cs: Vec<char> = chars_of(args[i].as_str());
        assert(texts[i as int] == cs@);
        let mut value: bool = false;
        if i > 0 {
            assert(texts[i - 1] == args@[i - 1]@);
            value = takes(args[i - 1].as_str(), &cs);
        }
        if !begins_as_flag(&cs) && !value {
            return Some(args[i].clone());
        }
        i = i + 1;
    }
    None
}

fn value_of(args: &Vec<String>, flag: &str) -> (r: Option<Vec<char>>)
    ensures
        match (r, value_after(texts_of(args@), flag@)) {
            (Some(a), Some(b)) => a@ == b,
            (None, None) => true,
            _ => false,
        },
{
    let ghost texts = texts_of(args@);
    let mut i: usize = 0;
    assert(texts.skip(0) =~= texts);
    while i < args.len()
        invariant
            i <= args@.len(),
            texts == texts_of(args@),
            value_after(texts, flag@) == value_after(texts.skip(i as int), flag@),
        decreases args.len() - i,
    {
        assert(texts.skip(i as int)[0] == args@[i as int]@);
        if same_text(args[i].as_str(), flag) {
            if i + 1 < args.len() {
                assert(texts.skip(i as int)[1] == args@[i + 1]@);
                return Some(chars_of(args[i + 1].as_str()));
            }
            return None;
        }
        assert(texts.skip(i as int).skip(1) =~= texts.skip(i + 1));
        i = i + 1;
    }
    assert(texts.skip(i as int).len() == 0);
    None
}

fn view_mode(args: &Vec<String>) -> (m: Mode)
    ensures
        m == view_asked(texts_of(args@)),
{
    if has(args, "--watch") {
        Mode::Watch
    } else if has(args, "--raw") {
        Mode::Hexdump
    } else if has(args, "--lds") || has(args, "--lds-tx") {
        Mode::Lds
    } else {
        Mode::Mcu
    }
}

/// How the announcement calls what the arguments ask for.
pub fn label(args: &Vec<String>) -> (s: &'static str)
    ensures
        s@ == label_asked(texts_of(args@)),
{
    match view_mode(args) {
        Mode::Watch => "watch",
        Mode::Hexdump => "hexdump",
        Mode::Lds => "lds decode",
        _ => "decode",
    }
}

/// Reads the arguments.
pub fn read_options(args: &Vec<String>) -> (o: Options)
    ensures
        match (o.host, host_asked(texts_of(args@))) {
            (Some(a), Some(b)) => a@ == b,
            (None, None) => true,
            _ => false,
        },
        o.port == port_asked(texts_of(args@)),
        o.mode == mode_asked(texts_of(args@)),
{
    let mut port: u16 = if has(args, "--mcu-tx") {
        7703
    } else if has(args, "--lds") {
        7702
    } else if has(args, "--lds-tx") {
        7704
    } else {
        7701
    };
    if let Some(v) = value_of(args, "--port") {
        if let Some(p) = read_number(v.as_slice(), 10, 65535) {
            port = p as u16;
        }
    }
    let mode: Mode = if has(args, "--log") {
        let mut typ: u8 = 1;
        if let Some(v) = value_of(args, "--log") {
            if let Some(t) = read_hex(&v) {
                typ = t as u8;
            }
        }
        Mode::Log { typ }
    } else {
        view_mode(args)
    };
    Options { host: host_named(args), port, mode }
}

// ---------------------------------------------------------------------------
// Laws
// ---------------------------------------------------------------------------
/// Without arguments the telemetry of the motor controller is summarised.
pub proof fn law_default_is_mcu(args: Seq<Seq<char>>)
    requires
        forall|i: int| 0 <= i < args.len() ==> !is_flag(#[trigger] args[i]),
    ensures
        mode_asked(args) == Mode::Mcu,
        channel_port_asked(args) == 7701,
        port_asked(args) == 7701,
{
    reveal_strlit("--log");
    reveal_strlit("--watch");
    reveal_strlit("--raw");
    reveal_strlit("--lds");
    reveal_strlit("--lds-tx");
    reveal_strlit("--mcu-tx");
    reveal_strlit("--port");
    assert(is_flag("--log"@));
    assert(is_flag("--watch"@));
    assert(is_flag("--raw"@));
    assert(is_flag("--lds"@));
    assert(is_flag("--lds-tx"@));
    assert(is_flag("--mcu-tx"@));
    assert(is_flag("--port"@));
    lemma_absent_flag_has_no_value(args, "--port"@);
}

proof fn lemma_absent_flag_has_no_value(args: Seq<Seq<char>>, flag: Seq<char>)
    requires
        !args.contains(flag),
    ensures
        value_after(args, flag) is None,
    decreases args.len(),
{
    if args.len() > 0 {
        assert(args.contains(args[0]));
        assert forall|i: int| 0 <= i < args.skip(1).len() implies args.skip(1)[i] != flag by {
            assert(args.contains(args[i + 1]));
        }
        lemma_absent_flag_has_no_value(args.skip(1), flag);
    }
}

/// A flag's value is never taken for the host, and neither is a flag: the host is an
/// argument of its own, the first of them.
pub proof fn law_host_is_positional(args: Seq<Seq<char>>)
    ensures
        match host_asked(args) {
            Some(h) => exists|i: int|
                #![trigger positional(args, i)]
                0 <= i < args.len() && positional(args, i) && args[i] == h && forall|j: int|
                    0 <= j < i ==> !positional(args, j),
            None => forall|j: int| 0 <= j < args.len() ==> !positional(args, j),
        },
{
    lemma_host_from(args, 0);
}

proof fn lemma_host_from(args: Seq<Seq<char>>, i: nat)
    requires
        i <= args.len(),
        forall|j: int| 0 <= j < i ==> !positional(args, j),
    ensures
        match host_from(args, i) {
            Some(h) => exists|k: int|
                #![trigger positional(args, k)]
                0 <= k < args.len() && positional(args, k) && args[k] == h && forall|j: int|
                    0 <= j < k ==> !positional(args, j),
            None => forall|j: int| 0 <= j < args.len() ==> !positional(args, j),
        },
    decreases args.len() - i,
{
    if i < args.len() && !positional(args, i as int) {
        lemma_host_from(args, i + 1);
    }
}

/// The decoder reads a channel from the port that the relay serves it on.
pub proof fn law_decoder_ports_are_served(args: Seq<Seq<char>>)
    ensures
        exists|i: int|
            0 <= i < 4 && #[trigger] crate::relay::channel_port(i) == channel_port_asked(args),
{
    assert(crate::relay::channel_port(0) == 7701);
    assert(crate::relay::channel_port(1) == 7702);
    assert(crate::relay::channel_port(2) == 7703);
    assert(crate::relay::channel_port(3) == 7704);
}

/// A flag's value is the argument behind its first occurrence.
pub proof fn law_value_behind_the_flag(args: Seq<Seq<char>>, flag: Seq<char>, i: int)
    requires
        0 <= i < args.len(),
        args[i] == flag,
        forall|j: int| 0 <= j < i ==> #[trigger] args[j] != flag,
    ensures
        i + 1 < args.len() ==> value_after(args, flag) == Some(args[i + 1]),
        i + 1 == args.len() ==> value_after(args, flag) is None,
    decreases args.len(),
{
    if i > 0 {
        assert(args[0] != flag);
        let rest = args.skip(1);
        assert forall|j: int| 0 <= j < i - 1 implies #[trigger] rest[j] != flag by {
            assert(args[j + 1] != flag);
        }
        law_value_behind_the_flag(rest, flag, i - 1);
    }
}

/// A port that is given in decimal is the port, whatever the other flags.
pub proof fn law_given_port_counts(args: Seq<Seq<char>>, i: int, n: nat)
    requires
        0 <= i,
        i + 1 < args.len(),
        args[i] == "--port"@,
        forall|j: int| 0 <= j < i ==> #[trigger] args[j] != "--port"@,
        args[i + 1] == dec(n),
        n <= 65535,
    ensures
        port_asked(args) == n,
{
    law_value_behind_the_flag(args, "--port"@, i);
    law_number_in_decimal_is_read(n, 65535);
}

/// Where no port is given, or what is given is too large, the channel says which it is:
/// commands to the motor controller come on 7703, the lidar's stream on 7702, the bytes
/// to the lidar on 7704, the telemetry on 7701.
pub proof fn law_channel_says_the_port(args: Seq<Seq<char>>, i: int, n: nat)
    requires
        !args.contains("--port"@) || 0 <= i && i + 1 < args.len() && args[i] == "--port"@ && (
        forall|j: int| 0 <= j < i ==> #[trigger] args[j] != "--port"@) && args[i + 1] == dec(n) && n
            > 65535,
    ensures
        args.contains("--mcu-tx"@) ==> port_asked(args) == 7703,
        !args.contains("--mcu-tx"@) && args.contains("--lds"@) ==> port_asked(args) == 7702,
        !args.contains("--mcu-tx"@) && !args.contains("--lds"@) && args.contains("--lds-tx"@)
            ==> port_asked(args) == 7704,
        !args.contains("--mcu-tx"@) && !args.contains("--lds"@) && !args.contains("--lds-tx"@)
            ==> port_asked(args) == 7701,
{
    if args.contains("--port"@) {
        law_value_behind_the_flag(args, "--port"@, i);
        law_number_in_decimal_is_read(n, 65535);
    } else {
        lemma_absent_flag_has_no_value(args, "--port"@);
    }
}

/// What is asked for: printing frames comes first, then watching, then the bytes, then
/// the lidar; without any of these flags the motor controller is summarised.
pub proof fn law_modes_in_their_order(args: Seq<Seq<char>>)
    ensures
        ({
            let log = args.contains("--log"@);
            let watch = args.contains("--watch"@);
            let raw = args.contains("--raw"@);
            let lds = args.contains("--lds"@) || args.contains("--lds-tx"@);
            &&& log <==> mode_asked(args) is Log
            &&& !log && watch <==> mode_asked(args) is Watch
            &&& !log && !watch && raw <==> mode_asked(args) is Hexdump
            &&& !log && !watch && !raw && lds <==> mode_asked(args) is Lds
            &&& watch ==> label_asked(args) == "watch"@
            &&& !watch && raw ==> label_asked(args) == "hexdump"@
            &&& !watch && !raw && lds ==> label_asked(args) == "lds decode"@
            &&& !watch && !raw && !lds ==> label_asked(args) == "decode"@
        }),
{
}

/// The frames to print are of the type that is given in hexadecimal, with or without `0x`
/// in front.
pub proof fn law_given_type_is_printed(args: Seq<Seq<char>>, i: int, t: u8)
    requires
        0 <= i,
        i + 1 < args.len(),
        args[i] == "--log"@,
        forall|j: int| 0 <= j < i ==> #[trigger] args[j] != "--log"@,
        args[i + 1] == digits(t as nat, 16) || args[i + 1] == hex2(t) || args[i + 1] == seq![
            '0',
            'x',
        ] + digits(t as nat, 16) || args[i + 1] == seq!['0', 'x'] + hex2(t),
    ensures
        mode_asked(args) == (Mode::Log { typ: t }),
{
    law_value_behind_the_flag(args, "--log"@, i);
    assert(args.contains(args[i]));
    law_written_number_is_read_back(t as nat, 16);
    law_hex_is_read_back(t);
    lemma_hex_without_0x(digits(t as nat, 16));
    lemma_hex_without_0x(hex2(t));
    assert(number_read(digits(t as nat, 16), 16, 255) == Some(t as nat));
    assert(hex2(t)[0] != '+') by {
        law_digits_in_order((t / 16) as nat, 16);
    }
    assert(number_read(hex2(t), 16, 255) == Some(t as nat));
}

/// A run of hexadecimal digits holds no `0x`, so that taking off what stands in front
/// leaves it.
proof fn lemma_hex_without_0x(s: Seq<char>)
    requires
        digits_value(s, 16) is Some || s.len() < 2,
    ensures
        without_0x(s) == s,
        without_0x(seq!['0', 'x'] + s) == s,
{
    if s.len() >= 2 && s[1] == 'x' {
        law_no_other_digits(s[1]);
        law_run_holds_digits_only(s, 16, 1);
    }
    assert(without_0x(s) == s);
    let t = seq!['0', 'x'] + s;
    assert(t.skip(2) =~= s);
    assert(t[0] == '0' && t[1] == 'x');
    assert(without_0x(t) == without_0x(t.skip(2)));
}

/// Without a type behind the flag, frames of type one are printed.
pub proof fn law_default_type_is_the_pose(args: Seq<Seq<char>>)
    requires
        args.len() > 0,
        args.last() == "--log"@,
        forall|j: int| 0 <= j < args.len() - 1 ==> #[trigger] args[j] != "--log"@,
    ensures
        mode_asked(args) == (Mode::Log { typ: 1 }),
{
    law_value_behind_the_flag(args, "--log"@, args.len() - 1);
    assert(args.contains(args.last()));
}

/// Which arguments stand for themselves: none that begins with two dashes, none that is
/// the number behind `--port`, and every other that is not behind `--port` or `--log`.
pub proof fn law_positional_arguments(args: Seq<Seq<char>>, i: int, n: nat)
    requires
        0 <= i < args.len(),
    ensures
        args[i].len() >= 2 && args[i][0] == '-' && args[i][1] == '-' ==> !positional(args, i),
        i > 0 && args[i - 1] == "--port"@ && args[i] == dec(n) && n <= 65535 ==> !positional(
            args,
            i,
        ),
        (i == 0 || args[i - 1] != "--port"@ && args[i - 1] != "--log"@) && !(args[i].len() >= 2
            && args[i][0] == '-' && args[i][1] == '-') ==> positional(args, i),
{
    law_number_in_decimal_is_read(n, 65535);
}

/// A port that cannot be read is passed over: one with a character in it that is no
/// figure.
pub proof fn law_unreadable_port_is_passed_over(args: Seq<Seq<char>>, i: int, k: int)
    requires
        0 <= i,
        i + 1 < args.len(),
        args[i] == "--port"@,
        forall|j: int| 0 <= j < i ==> #[trigger] args[j] != "--port"@,
        0 <= k < args[i + 1].len(),
        !('0' <= args[i + 1][k] <= '9'),
        k == 0 ==> args[i + 1][k] != '+',
    ensures
        port_asked(args) == channel_port_asked(args),
{
    law_value_behind_the_flag(args, "--port"@, i);
    let v = args[i + 1];
    law_no_other_digits(v[k]);
    if v[0] == '+' {
        assert(v.skip(1)[k - 1] == v[k]);
        law_run_holds_digits_only(v.skip(1), 10, k - 1);
    } else {
        law_run_holds_digits_only(v, 10, k);
    }
}

/// A type above 255 is passed over, and frames of type one are printed.
pub proof fn law_too_large_type_is_passed_over(args: Seq<Seq<char>>, i: int, n: nat)
    requires
        0 <= i,
        i + 1 < args.len(),
        args[i] == "--log"@,
        forall|j: int| 0 <= j < i ==> #[trigger] args[j] != "--log"@,
        args[i + 1] == digits(n, 16),
        n > 255,
    ensures
        mode_asked(args) == (Mode::Log { typ: 1 }),
{
    law_value_behind_the_flag(args, "--log"@, i);
    assert(args.contains(args[i]));
    law_written_number_is_read_back(n, 16);
    lemma_hex_without_0x(digits(n, 16));
}

/// Every `0x` in front is taken off.
pub proof fn law_prefix_is_taken_off(s: Seq<char>)
    ensures
        without_0x(seq!['0', 'x'] + s) == without_0x(s),
{
    assert((seq!['0', 'x'] + s).skip(2) =~= s);
}

/// A type behind `--log` is not the host; what is behind `--log` or `--port` and cannot be
/// read is, unless it is a flag.
pub proof fn law_values_are_not_the_host(args: Seq<Seq<char>>, i: int, t: u8)
    requires
        0 < i < args.len(),
    ensures
        args[i - 1] == "--log"@ && (args[i] == hex2(t) || args[i] == seq!['0', 'x'] + hex2(t))
            ==> !positional(args, i),
        (args[i - 1] == "--log"@ || args[i - 1] == "--port"@) && args[i].len() > 0 && 'g'
            <= args[i][0] <= 'z' ==> positional(args, i),
{
    law_hex_is_read_back(t);
    lemma_hex_without_0x(hex2(t));
    assert(hex2(t)[0] != '+') by {
        law_digits_in_order((t / 16) as nat, 16);
    }
    let a = args[i];
    if a.len() > 0 && 'g' <= a[0] <= 'z' {
        law_no_other_digits(a[0]);
        law_run_holds_digits_only(a, 16, 0);
        law_run_holds_digits_only(a, 10, 0);
        assert(without_0x(a) == a);
    }
}

} // verus!
