use vstd::prelude::*;

verus! {

/// The decimal digit character of `d`.
pub open spec fn digit_char(d: int) -> char {
    if d == 0 {
        '0'
    } else if d == 1 {
        '1'
    } else if d == 2 {
        '2'
    } else if d == 3 {
        '3'
    } else if d == 4 {
        '4'
    } else if d == 5 {
        '5'
    } else if d == 6 {
        '6'
    } else if d == 7 {
        '7'
    } else if d == 8 {
        '8'
    } else {
        '9'
    }
}

/// The decimal numeral of `n`, most significant digit first.
pub open spec fn dec_chars(n: int) -> Seq<char>
    decreases n,
{
    if n < 10 {
        seq![digit_char(n)]
    } else {
        dec_chars(n / 10).push(digit_char(n % 10))
    }
}

fn digit_str(d: u32) -> (s: &'static str)
    requires
        d < 10,
    ensures
        s@ == seq![digit_char(d as int)],
{
    proof {
        reveal_strlit("0");
        reveal_strlit("1");
        reveal_strlit("2");
        reveal_strlit("3");
        reveal_strlit("4");
        reveal_strlit("5");
        reveal_strlit("6");
        reveal_strlit("7");
        reveal_strlit("8");
        reveal_strlit("9");
        assert(("0")@ =~= seq![digit_char(0)]);
        assert(("1")@ =~= seq![digit_char(1)]);
        assert(("2")@ =~= seq![digit_char(2)]);
        assert(("3")@ =~= seq![digit_char(3)]);
        assert(("4")@ =~= seq![digit_char(4)]);
        assert(("5")@ =~= seq![digit_char(5)]);
        assert(("6")@ =~= seq![digit_char(6)]);
        assert(("7")@ =~= seq![digit_char(7)]);
        assert(("8")@ =~= seq![digit_char(8)]);
        assert(("9")@ =~= seq![digit_char(9)]);
    }
    match d {
        0 => "0",
        1 => "1",
        2 => "2",
        3 => "3",
        4 => "4",
        5 => "5",
        6 => "6",
        7 => "7",
        8 => "8",
        _ => "9",
    }
}

/// The decimal numeral of `n`, as subprocess arguments are written.
pub fn u32_to_decimal(n: u32) -> (s: String)
    ensures
        s@ == dec_chars(n as int),
    decreases n,
{
    if n < 10 {
        digit_str(n).to_owned()
    } else {
        let mut s = u32_to_decimal(n / 10);
        s.append(digit_str(n % 10));
        proof {
            assert(s@ =~= dec_chars(n as int));
        }
        s
    }
}

/// The scale filter expression: height fixed, width kept to aspect.
pub open spec fn scale_filter_spec(size: int) -> Seq<char> {
    ("scale=-1:")@ + dec_chars(size)
}

/// The bitrate argument, in kilobits.
pub open spec fn bitrate_spec(bitrate: int) -> Seq<char> {
    dec_chars(bitrate) + ("k")@
}

/// The argument list handed to the media subprocess: the input file, the
/// aspect-preserving scale filter, the target bitrate, and output framed as
/// streamable fragmented MP4 on its standard output.
pub open spec fn ffmpeg_scale_args_spec(file: Seq<char>, size: int, bitrate: int) -> Seq<
    Seq<char>,
> {
    seq![
        ("-i")@,
        file,
        ("-filter:v")@,
        scale_filter_spec(size),
        ("-b:v")@,
        bitrate_spec(bitrate),
        ("-movflags")@,
        ("frag_keyframe+empty_moov")@,
        ("-f")@,
        ("mp4")@,
        ("pipe:1")@,
    ]
}

/// Build the subprocess argument list for scaling `file` to `size` pixels of
/// height at `bitrate` kilobits per second.
pub fn ffmpeg_scale_args(file: &str, size: u32, bitrate: u32) -> (args: Vec<String>)
    ensures
        args.deep_view() == ffmpeg_scale_args_spec(file@, size as int, bitrate as int),
{
    let mut args: Vec<String> = Vec::new();
    args.push(String::from_str("-i"));
    args.push(file.to_owned());
    args.push(String::from_str("-filter:v"));
    let mut filter = String::from_str("scale=-1:");
    let num = u32_to_decimal(size);
    filter.append(num.as_str());
    args.push(filter);
    args.push(String::from_str("-b:v"));
    let mut rate = u32_to_decimal(bitrate);
    rate.append("k");
    args.push(rate);
    args.push(String::from_str("-movflags"));
    args.push(String::from_str("frag_keyframe+empty_moov"));
    args.push(String::from_str("-f"));
    args.push(String::from_str("mp4"));
    args.push(String::from_str("pipe:1"));
    proof {
        assert(args.deep_view() =~= ffmpeg_scale_args_spec(file@, size as int, bitrate as int));
    }
    args
}

/// The scaling parameters of a transcode request, with the defaults filled
/// in: height 720 and 2000 kilobits per second when unspecified.
pub fn transcode_params(resize: Option<u32>, bitrate: Option<u32>) -> (r: (u32, u32))
    ensures
        r.0 == (match resize {
            Some(v) => v,
            None => 720u32,
        }),
        r.1 == (match bitrate {
            Some(v) => v,
            None => 2000u32,
        }),
{
    let r0 = match resize {
        Some(v) => v,
        None => 720,
    };
    let r1 = match bitrate {
        Some(v) => v,
        None => 2000,
    };
    (r0, r1)
}

/// The verdict of the transcode relay on one round of its loop.
pub enum RelayStep {
    /// Bytes were read and written through; keep relaying.
    Forwarded,
    /// The encoder's output ended (or could not be read): stop.
    Done,
    /// The consumer is gone: the subprocess must be killed at once.
    Killed,
}

/// The relay policy: one round reads from the encoder's standard output and,
/// when bytes came, writes them to the consumer. End of output ends the
/// relay; a failed write means the consumer disconnected, and the encoder
/// process must be terminated rather than orphaned.
pub fn relay_step(read_len: Option<usize>, write_ok: bool) -> (r: RelayStep)
    ensures
        (read_len is None || read_len == Some(0usize)) ==> r is Done,
        (read_len matches Some(k) && k > 0 && write_ok) ==> r is Forwarded,
        (read_len matches Some(k) && k > 0 && !write_ok) ==> r is Killed,
{
    match read_len {
        None => RelayStep::Done,
        Some(0) => RelayStep::Done,
        Some(_) => if write_ok {
            RelayStep::Forwarded
        } else {
            RelayStep::Killed
        },
    }
}

} // verus!
