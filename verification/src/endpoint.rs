//! Endpoints of the form `domain:port`, and the decimal port number in them.

use vstd::prelude::*;
use vstd::string::*;
use crate::text::chars_of;

verus! {

pub open spec fn is_digit(c: char) -> bool {
    '0' <= c && c <= '9'
}

pub open spec fn digit_value(c: char) -> nat {
    (c as u32 - '0' as u32) as nat
}

/// The number that the decimal digits `s` write.
pub open spec fn decimal_value(s: Seq<char>) -> nat
    decreases s.len(),
{
    if s.len() == 0 {
        0
    } else {
        decimal_value(s.drop_last()) * 10 + digit_value(s.last())
    }
}

pub open spec fn all_digits(s: Seq<char>) -> bool {
    forall|i: int| 0 <= i < s.len() ==> is_digit(#[trigger] s[i])
}

/// The digits of a port: the text after one optional leading `+`.
pub open spec fn port_digits(s: Seq<char>) -> Seq<char> {
    if s.len() > 0 && s[0] == '+' {
        s.drop_first()
    } else {
        s
    }
}

/// What `s.parse::<u16>()` gives: one optional `+`, then one or more
/// decimal digits whose value fits in 16 bits.
pub open spec fn parsed_port(s: Seq<char>) -> Option<u16> {
    let d = port_digits(s);
    if d.len() > 0 && all_digits(d) && decimal_value(d) <= 65535 {
        Some(decimal_value(d) as u16)
    } else {
        None
    }
}

/// Parses a port number as `str::parse::<u16>` does.
pub fn parse_port(s: &str) -> (r: Option<u16>)
    ensures
        r == parsed_port(s@),
{
    let v = chars_of(s);
    let n = v.len();
    let start: usize = if n > 0 && v[0] == '+' { 1 } else { 0 };
    let ghost d = port_digits(s@);
    assert(d =~= s@.subrange(start as int, n as int));
    if start == n {
        return None;
    }
    let mut value: u32 = 0;
    let mut too_big = false;
    let mut i: usize = start;
    assert(d.take(0) =~= Seq::<char>::empty());
    while i < n
        invariant
            v@ == s@,
            n == v.len(),
            d == s@.subrange(start as int, n as int),
            d == port_digits(s@),
            start <= i <= n,
            all_digits(d.take(i - start)),
            !too_big ==> value == decimal_value(d.take(i - start)) && value <= 65535,
            too_big ==> decimal_value(d.take(i - start)) > 65535,
        decreases n - i,
    {
        let c = v[i];
        if !('0' <= c && c <= '9') {
            assert(d[i - start] == c);
            assert(!is_digit(d[i - start]));
            assert(!all_digits(d));
            return None;
        }
        let ghost prev = d.take(i - start);
        assert(d.take(i - start + 1).drop_last() =~= prev);
        assert(d.take(i - start + 1).last() == c);
        let dv = (c as u32) - ('0' as u32);
        proof {
            let x = decimal_value(prev);
            assert(x * 10 + dv >= x) by (nonlinear_arith)
                requires
                    x >= 0,
                    dv >= 0,
            ;
        }
        if !too_big {
            if value > 6553 || value * 10 + dv > 65535 {
                too_big = true;
            } else {
                value = value * 10 + dv;
            }
        }
        i = i + 1;
    }
    assert(d.take(n - start) =~= d);
    if too_big {
        None
    } else {
        Some(value as u16)
    }
}


/// `s[k]` is a `:` and no other character of `s` is.
pub open spec fn is_sole_colon(s: Seq<char>, k: int) -> bool {
    &&& 0 <= k < s.len()
    &&& s[k] == ':'
    &&& forall|i: int| 0 <= i < s.len() && i != k ==> s[i] != ':'
}

/// Where the only `:` of `s` is, if `s` holds exactly one.
pub open spec fn sole_colon(s: Seq<char>) -> Option<int> {
    if exists|k: int| is_sole_colon(s, k) {
        Some(choose|k: int| is_sole_colon(s, k))
    } else {
        None
    }
}

/// Why an endpoint was refused.
#[derive(Debug, Clone, Copy, PartialEq, Eq, Structural)]
pub enum EndpointError {
    /// Splitting at `:` did not give exactly two parts.
    Format,
    /// The part after the `:` is not a port number.
    Port,
}

/// A host to probe: its domain and TCP port.
pub struct Endpoint {
    pub domain: String,
    pub port: u16,
}

/// What parsing the endpoint `s` gives: the domain before the only `:` and
/// the port after it.
pub open spec fn parsed_endpoint(s: Seq<char>) -> Result<(Seq<char>, u16), EndpointError> {
    match sole_colon(s) {
        None => Err(EndpointError::Format),
        Some(k) => match parsed_port(s.subrange(k + 1, s.len() as int)) {
            None => Err(EndpointError::Port),
            Some(p) => Ok((s.subrange(0, k), p)),
        },
    }
}

/// Splits `domain:port` into its domain and port, refusing text that does
/// not hold exactly one `:` or whose port is not a 16-bit decimal number.
pub fn parse_endpoint(s: &str) -> (r: Result<Endpoint, EndpointError>)
    ensures
        match r {
            Ok(ep) => parsed_endpoint(s@) == Ok::<(Seq<char>, u16), EndpointError>((ep.domain@, ep.port)),
            Err(e) => parsed_endpoint(s@) == Err::<(Seq<char>, u16), EndpointError>(e),
        },
{
    let v = chars_of(s);
    let n = v.len();
    let mut count: usize = 0;
    let mut at: usize = 0;
    let mut i: usize = 0;
    while i < n
        invariant
            v@ == s@,
            n == v.len(),
            i <= n,
            count <= i,
            count == 0 ==> forall|j: int| 0 <= j < i ==> s@[j] != ':',
            count == 1 ==> at < i && is_sole_colon(s@.take(i as int), at as int),
            count >= 2 ==> exists|a: int, b: int|
                0 <= a < b < i && s@[a] == ':' && s@[b] == ':',
        decreases n - i,
    {
        if v[i] == ':' {
            if count == 0 {
                at = i;
                assert(is_sole_colon(s@.take(i + 1), at as int));
            } else if count == 1 {
                assert(s@[at as int] == s@.take(i as int)[at as int]);
            }
            if count < 2 {
                count = count + 1;
            }
        } else if count == 1 {
            assert forall|j: int| 0 <= j < i + 1 && j != at implies #[trigger] s@.take(i + 1)[j] != ':' by {
                if j < i {
                    assert(s@.take(i as int)[j] == s@[j]);
                }
            }
        }
        i = i + 1;
    }
    if count != 1 {
        proof {
            if exists|k: int| is_sole_colon(s@, k) {
                let k = choose|k: int| is_sole_colon(s@, k);
                if count >= 2 {
                    let (a, b) = choose|a: int, b: int| 0 <= a < b < i && s@[a] == ':' && s@[b] == ':';
                    assert(a == k && b == k);
                }
            }
        }
        return Err(EndpointError::Format);
    }
    proof {
        assert(s@.take(n as int) =~= s@);
        assert(is_sole_colon(s@, at as int));
        assert forall|k: int| is_sole_colon(s@, k) implies k == at by {}
        assert(sole_colon(s@) == Some(at as int));
    }
    let port_text = s.substring_char(at + 1, n);
    match parse_port(port_text) {
        None => Err(EndpointError::Port),
        Some(port) => {
            let domain = String::from_str(s.substring_char(0, at));
            Ok(Endpoint { domain, port })
        },
    }
}


/// The decimal digit that writes `d`, for `d < 10`.
pub open spec fn digit_char(d: nat) -> char {
    if d == 0 {
        '0'
    } else if d == 1 {
        '1'
    } else if d == 2 {
        '2'
    } else if d == 3 {
        '3'
    } else if d == 4 {
        '4'
    } else if d == 5 {
        '5'
    } else if d == 6 {
        '6'
    } else if d == 7 {
        '7'
    } else if d == 8 {
        '8'
    } else {
        '9'
    }
}

/// `n` written in decimal without leading zeros, as `Display` writes it.
pub open spec fn decimal_text(n: nat) -> Seq<char>
    decreases n,
{
    if n < 10 {
        seq![digit_char(n)]
    } else {
        decimal_text(n / 10).push(digit_char(n % 10))
    }
}

proof fn lemma_digit_char(d: nat)
    requires
        d < 10,
    ensures
        is_digit(digit_char(d)),
        digit_value(digit_char(d)) == d,
{
}

proof fn lemma_decimal_text(n: nat)
    ensures
        decimal_text(n).len() > 0,
        all_digits(decimal_text(n)),
        decimal_value(decimal_text(n)) == n,
    decreases n,
{
    if n < 10 {
        lemma_digit_char(n);
        assert(decimal_text(n).drop_last() =~= Seq::<char>::empty());
        assert(decimal_value(Seq::<char>::empty()) == 0);
    } else {
        lemma_digit_char(n % 10);
        assert(n == (n / 10) * 10 + n % 10) by (nonlinear_arith);
        lemma_decimal_text(n / 10);
        let t = decimal_text(n);
        assert(t.drop_last() =~= decimal_text(n / 10));
        assert(t.last() == digit_char(n % 10));
        assert forall|i: int| 0 <= i < t.len() implies is_digit(#[trigger] t[i]) by {
            if i < t.len() - 1 {
                assert(t[i] == decimal_text(n / 10)[i]);
            }
        }
    }
}

/// An endpoint written as the domain, a `:` and the port in decimal parses
/// back to that domain and port, for any domain without a `:`.
pub proof fn lemma_endpoint_round_trip(domain: Seq<char>, port: u16)
    requires
        !domain.contains(':'),
    ensures
        parsed_endpoint(domain + seq![':'] + decimal_text(port as nat)) == Ok::<
            (Seq<char>, u16),
            EndpointError,
        >((domain, port)),
{
    let t = decimal_text(port as nat);
    lemma_decimal_text(port as nat);
    let s = domain + seq![':'] + t;
    let k = domain.len() as int;
    assert forall|i: int| 0 <= i < s.len() && i != k implies s[i] != ':' by {
        if i < k {
            assert(s[i] == domain[i]);
        } else {
            assert(s[i] == t[i - k - 1]);
            assert(is_digit(t[i - k - 1]));
        }
    }
    assert(is_sole_colon(s, k));
    assert forall|j: int| is_sole_colon(s, j) implies j == k by {}
    assert(sole_colon(s) == Some(k));
    assert(s.subrange(k + 1, s.len() as int) =~= t);
    assert(s.subrange(0, k) =~= domain);
    assert(is_digit(t[0]));
    assert(port_digits(t) == t);
}

} // verus!
