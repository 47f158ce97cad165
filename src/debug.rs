use vstd::prelude::*;
use vstd::string::{StringExecFns, StringSliceAdditionalSpecFns};
use crate::text::string_from_chars;

verus! {

/// The number of request colors.
pub const COLOR_COUNT: usize = 14;

/// The ANSI sequence that ends a color.
pub const RESET: &'static str = "\x1b[0m";

/// The hash of a request id: `h = h * 31 + byte` over its bytes, modulo 2^32.
pub open spec fn request_hash(bytes: Seq<u8>) -> nat
    decreases bytes.len(),
{
    if bytes.len() == 0 {
        0
    } else {
        (request_hash(bytes.drop_last()) * 31 + bytes.last() as nat) % 0x1_0000_0000
    }
}

/// The ANSI color sequence number `i` of the request palette.
pub open spec fn color_code(i: nat) -> Seq<char> {
    if i == 0 {
        "\x1b[31m"@
    } else if i == 1 {
        "\x1b[32m"@
    } else if i == 2 {
        "\x1b[33m"@
    } else if i == 3 {
        "\x1b[34m"@
    } else if i == 4 {
        "\x1b[35m"@
    } else if i == 5 {
        "\x1b[36m"@
    } else if i == 6 {
        "\x1b[91m"@
    } else if i == 7 {
        "\x1b[92m"@
    } else if i == 8 {
        "\x1b[93m"@
    } else if i == 9 {
        "\x1b[94m"@
    } else if i == 10 {
        "\x1b[95m"@
    } else if i == 11 {
        "\x1b[96m"@
    } else if i == 12 {
        "\x1b[37m"@
    } else {
        "\x1b[90m"@
    }
}

/// The color of a request id: the same id always gets the same color.
pub open spec fn request_color(request_id: &str) -> Seq<char> {
    color_code(request_hash(request_id.spec_bytes()) % (COLOR_COUNT as nat))
}

/// The decimal digits of `n`.
pub open spec fn decimal(n: nat) -> Seq<char>
    decreases n,
{
    if n < 10 {
        seq![(('0' as u8) + n) as char]
    } else {
        decimal(n / 10).push((('0' as u8) + n % 10) as char)
    }
}

/// `s` right-aligned in a field of five characters, padded with spaces.
pub open spec fn right_align5(s: Seq<char>) -> Seq<char> {
    if s.len() < 5 {
        Seq::new((5 - s.len()) as nat, |i: int| ' ') + s
    } else {
        s
    }
}

/// A debug prefix: the colored request id in brackets, then the instance id in brackets.
pub open spec fn debug_prefix(request_id: Option<&str>, instance_id: Option<&str>) -> Seq<char> {
    match (request_id, instance_id) {
        (Some(r), Some(i)) => request_color(r) + "["@ + r@ + "]"@ + RESET@ + "["@ + i@ + "]"@,
        (Some(r), None) => request_color(r) + "["@ + r@ + "]"@ + RESET@,
        (None, Some(i)) => "["@ + i@ + "]"@,
        (None, None) => seq![],
    }
}

/// The colored request id followed by the time since the request started, in gray.
pub open spec fn colored_request_id(request_id: &str, elapsed_ms: nat) -> Seq<char> {
    request_color(request_id) + "["@ + request_id@ + "]"@ + RESET@ + " \x1b[90m"@ + right_align5(
        decimal(elapsed_ms),
    ) + "\x1b[0m"@
}

/// The palette color of a request id, chosen by hashing its bytes.
pub fn get_request_id_color(request_id: &str) -> (r: &'static str)
    ensures
        r@ == request_color(request_id),
{
    let bytes = request_id.as_bytes();
    let mut hash: u32 = 0;
    for i in 0..bytes.len()
        invariant
            bytes@ == request_id.spec_bytes(),
            hash as nat == request_hash(bytes@.take(i as int)),
    {
        assert(bytes@.take(i + 1).drop_last() =~= bytes@.take(i as int));
        hash = ((hash as u64 * 31 + bytes[i] as u64) % 0x1_0000_0000) as u32;
    }
    assert(bytes@.take(bytes@.len() as int) =~= bytes@);
    let index = (hash as usize) % COLOR_COUNT;
    if index == 0 {
        "\x1b[31m"
    } else if index == 1 {
        "\x1b[32m"
    } else if index == 2 {
        "\x1b[33m"
    } else if index == 3 {
        "\x1b[34m"
    } else if index == 4 {
        "\x1b[35m"
    } else if index == 5 {
        "\x1b[36m"
    } else if index == 6 {
        "\x1b[91m"
    } else if index == 7 {
        "\x1b[92m"
    } else if index == 8 {
        "\x1b[93m"
    } else if index == 9 {
        "\x1b[94m"
    } else if index == 10 {
        "\x1b[95m"
    } else if index == 11 {
        "\x1b[96m"
    } else if index == 12 {
        "\x1b[37m"
    } else {
        "\x1b[90m"
    }
}

/// The prefix that log lines of one request, on one instance, start with.
pub fn format_debug_prefix(request_id: Option<&str>, instance_id: Option<&str>) -> (r: String)
    ensures
        r@ == debug_prefix(request_id, instance_id),
{
    let mut s = String::new();
    match request_id {
        Some(req) => {
            s.append(get_request_id_color(req));
            s.append("[");
            s.append(req);
            s.append("]");
            s.append(RESET);
            match instance_id {
                Some(inst) => {
                    s.append("[");
                    s.append(inst);
                    s.append("]");
                },
                None => {},
            }
        },
        None => {
            match instance_id {
                Some(inst) => {
                    s.append("[");
                    s.append(inst);
                    s.append("]");
                },
                None => {},
            }
        },
    }
    s
}

/// The decimal digits of `n`.
pub fn decimal_string(n: u128) -> (r: Vec<char>)
    ensures
        r@ == decimal(n as nat),
{
    let mut digits: Vec<char> = Vec::new();
    let mut m: u128 = n;
    while m >= 10
        invariant
            decimal(n as nat) == decimal(m as nat) + digits@.reverse(),
        decreases m,
    {
        let ghost before = digits@;
        let d = (m % 10) as u8;
        digits.push((('0' as u8) + d) as char);
        assert(digits@.reverse() =~= seq![(('0' as u8) + (m % 10) as nat) as char]
            + before.reverse());
        assert(decimal(m as nat) + before.reverse() =~= decimal((m / 10) as nat)
            + digits@.reverse());
        m = m / 10;
    }
    let ghost before = digits@;
    digits.push((('0' as u8) + m as u8) as char);
    assert(digits@.reverse() =~= decimal(m as nat) + before.reverse());
    let mut out: Vec<char> = Vec::new();
    let len = digits.len();
    for i in 0..len
        invariant
            len == digits@.len(),
            out@ == digits@.reverse().take(i as int),
    {
        out.push(digits[len - 1 - i]);
        assert(out@ =~= digits@.reverse().take(i + 1));
    }
    assert(digits@.reverse().take(len as int) =~= digits@.reverse());
    out
}

/// The colored request id with the milliseconds since the request started,
/// right-aligned in five columns.
pub fn get_colored_request_id_with_relative(request_id: &str, elapsed_ms: u128) -> (r: String)
    ensures
        r@ == colored_request_id(request_id, elapsed_ms as nat),
{
    let digits = decimal_string(elapsed_ms);
    let mut field: Vec<char> = Vec::new();
    let mut k: usize = digits.len();
    while k < 5
        invariant
            digits.len() <= k <= 5 || (k == digits.len() && k >= 5),
            field@ == Seq::new((k - digits@.len()) as nat, |i: int| ' '),
        decreases 5 - k,
    {
        field.push(' ');
        assert(field@ =~= Seq::new((k + 1 - digits@.len()) as nat, |i: int| ' '));
        k = k + 1;
    }
    let ghost pad = field@;
    for i in 0..digits.len()
        invariant
            field@ == pad + digits@.take(i as int),
    {
        field.push(digits[i]);
        assert(field@ =~= pad + digits@.take(i + 1));
    }
    assert(digits@.take(digits@.len() as int) =~= digits@);
    assert(field@ =~= right_align5(decimal(elapsed_ms as nat)));
    let mut s = String::new();
    s.append(get_request_id_color(request_id));
    s.append("[");
    s.append(request_id);
    s.append("]");
    s.append(RESET);
    s.append(" \x1b[90m");
    let relative = string_from_chars(&field);
    s.append(relative.as_str());
    s.append("\x1b[0m");
    s
}

} // verus!
