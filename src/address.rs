//! Network addresses as host text and port, printed and read as `host:port`.

use vstd::prelude::*;

verus! {

/// The character of a decimal digit `d < 10`.
pub open spec fn digit_char(d: nat) -> char {
    (('0' as nat) + d) as char
}

/// Decimal text of `n`, without leading zeros.
pub open spec fn decimal(n: nat) -> Seq<char>
    decreases n,
{
    if n < 10 {
        seq![digit_char(n)]
    } else {
        decimal(n / 10).push(digit_char(n % 10))
    }
}

pub open spec fn is_digit(c: char) -> bool {
    '0' <= c && c <= '9'
}

pub open spec fn all_digits(s: Seq<char>) -> bool {
    forall|i: int| 0 <= i < s.len() ==> is_digit(#[trigger] s[i])
}

/// Value of a string of decimal digits.
pub open spec fn digits_value(s: Seq<char>) -> nat
    decreases s.len(),
{
    if s.len() == 0 {
        0
    } else {
        digits_value(s.drop_last()) * 10 + ((s.last() as nat) - ('0' as nat)) as nat
    }
}

/// Index of the first ':' at or after `from`, or the length when there is none.
pub open spec fn colon_from(s: Seq<char>, from: int) -> int
    decreases s.len() - from,
{
    if from >= s.len() {
        s.len() as int
    } else if s[from] == ':' {
        from
    } else {
        colon_from(s, from + 1)
    }
}

/// The host part of an address text: everything before the first ':'.
pub open spec fn host_text(s: Seq<char>) -> Seq<char> {
    s.subrange(0, colon_from(s, 0))
}

/// The port part of an address text: what follows the first ':' up to the next one.
pub open spec fn port_text(s: Seq<char>) -> Seq<char> {
    let c = colon_from(s, 0);
    s.subrange(c + 1, colon_from(s, c + 1))
}

/// The digits of the port: the port part without one leading '+'.
pub open spec fn port_digits(s: Seq<char>) -> Seq<char> {
    let p = port_text(s);
    if p.len() > 0 && p[0] == '+' {
        p.drop_first()
    } else {
        p
    }
}

/// An address text holds a ':' followed by a decimal port, with an optional '+'
/// sign, that fits in 16 bits.
pub open spec fn is_address_text(s: Seq<char>) -> bool {
    &&& colon_from(s, 0) < s.len()
    &&& port_digits(s).len() > 0
    &&& all_digits(port_digits(s))
    &&& digits_value(port_digits(s)) <= 65535
}

proof fn lemma_colon_from_bounds(s: Seq<char>, from: int)
    requires
        0 <= from,
    ensures
        from <= colon_from(s, from) || from > s.len(),
        colon_from(s, from) <= s.len() || from > s.len(),
        colon_from(s, from) < s.len() ==> s[colon_from(s, from)] == ':',
        forall|j: int| from <= j < colon_from(s, from) ==> s[j] != ':',
    decreases s.len() - from,
{
    if from < s.len() && s[from] != ':' {
        lemma_colon_from_bounds(s, from + 1);
    }
}

proof fn lemma_digits_value_prefix(s: Seq<char>, k: int)
    requires
        0 <= k <= s.len(),
        all_digits(s),
    ensures
        digits_value(s.subrange(0, k)) <= digits_value(s),
    decreases s.len(),
{
    if k < s.len() {
        assert(s.drop_last() =~= s.subrange(0, s.len() - 1));
        assert(s.subrange(0, k) =~= s.drop_last().subrange(0, k));
        lemma_digits_value_prefix(s.drop_last(), k);
    } else {
        assert(s.subrange(0, k) =~= s);
    }
}

/// The text of one decimal digit.
fn digit_str(d: u16) -> (r: &'static str)
    requires
        d < 10,
    ensures
        r@ == seq![digit_char(d as nat)],
{
    proof {
        reveal_strlit("0");
        reveal_strlit("1");
        reveal_strlit("2");
        reveal_strlit("3");
        reveal_strlit("4");
        reveal_strlit("5");
        reveal_strlit("6");
        reveal_strlit("7");
        reveal_strlit("8");
        reveal_strlit("9");
    }
    match d {
        0 => "0",
        1 => "1",
        2 => "2",
        3 => "3",
        4 => "4",
        5 => "5",
        6 => "6",
        7 => "7",
        8 => "8",
        _ => "9",
    }
}

/// Appends the decimal text of `n` to `s`.
fn push_decimal(s: &mut String, n: u16)
    ensures
        final(s)@ == old(s)@ + decimal(n as nat),
    decreases n,
{
    if n >= 10 {
        push_decimal(s, n / 10);
    }
    let d = digit_str(n % 10);
    s.append(d);
    proof {
        assert(final(s)@ =~= old(s)@ + decimal(n as nat));
    }
}

/// A host name or IP text together with a port.
pub struct Address {
    ip: String,
    port: u16,
}

impl Address {
    /// The host text.
    pub closed spec fn ip_view(&self) -> Seq<char> {
        self.ip@
    }

    /// The port.
    pub closed spec fn port_view(&self) -> u16 {
        self.port
    }

    pub fn new(ip: String, port: u16) -> (r: Address)
        ensures
            r.ip_view() == ip@,
            r.port_view() == port,
    {
        Address { ip, port }
    }

    pub fn ip(&self) -> (r: &String)
        ensures
            r@ == self.ip_view(),
    {
        &self.ip
    }

    pub fn port(&self) -> (r: &u16)
        ensures
            *r == self.port_view(),
    {
        &self.port
    }

    pub fn set_ip(&mut self, ip: String)
        ensures
            final(self).ip_view() == ip@,
            final(self).port_view() == old(self).port_view(),
    {
        self.ip = ip;
    }

    pub fn set_port(&mut self, port: u16)
        ensures
            final(self).ip_view() == old(self).ip_view(),
            final(self).port_view() == port,
    {
        self.port = port;
    }

    /// The text `ip:port`, the port in decimal.
    pub fn to_string(&self) -> (r: String)
        ensures
            r@ == self.ip_view() + seq![':'] + decimal(self.port_view() as nat),
    {
        let mut s = self.ip.clone();
        proof {
            reveal_strlit(":");
        }
        s.append(":");
        push_decimal(&mut s, self.port);
        s
    }

    /// Reads `ip:port`; `None` when the text has no ':' or no valid port after it.
    pub fn try_from_string(address: &String) -> (r: Option<Address>)
        ensures
            r is Some <==> is_address_text(address@),
            r is Some ==> r->Some_0.ip_view() == host_text(address@)
                && r->Some_0.port_view() as nat == digits_value(port_digits(address@)),
    {
        let text = address.as_str();
        let n = text.unicode_len();
        let ghost s = address@;
        let mut c: usize = 0;
        while c < n && text.get_char(c) != ':'
            invariant
                n == s.len(),
                text@ == s,
                0 <= c <= n,
                forall|j: int| 0 <= j < c ==> s[j] != ':',
            decreases n - c,
        {
            c = c + 1;
        }
        proof {
            lemma_colon_from_bounds(s, 0);
            assert(colon_from(s, 0) == c) by {
                if colon_from(s, 0) < c {
                    assert(s[colon_from(s, 0)] == ':');
                }
            }
        }
        if c >= n {
            return None;
        }
        let start: usize = if c + 1 < n && text.get_char(c + 1) == '+' {
            c + 2
        } else {
            c + 1
        };
        let mut e: usize = start;
        let mut value: u32 = 0;
        let mut ok = true;
        let ghost mut bad: int = 0;
        while e < n && text.get_char(e) != ':'
            invariant
                n == s.len(),
                text@ == s,
                c < n,
                start == c + 1 || (start == c + 2 && s[c + 1] == '+'),
                start <= e <= n,
                forall|j: int| c + 1 <= j < e ==> s[j] != ':',
                ok ==> all_digits(s.subrange(start as int, e as int)),
                ok ==> value as nat == digits_value(s.subrange(start as int, e as int)),
                ok ==> value <= 65535,
                !ok ==> start <= bad <= e,
                !ok ==> !all_digits(s.subrange(start as int, bad)) || digits_value(
                    s.subrange(start as int, bad),
                ) > 65535,
            decreases n - e,
        {
            let ch = text.get_char(e);
            if ok {
                if '0' <= ch && ch <= '9' {
                    let nv = value * 10 + (ch as u32 - '0' as u32);
                    proof {
                        let p = s.subrange(start as int, e + 1);
                        assert(p.drop_last() =~= s.subrange(start as int, e as int));
                        assert(all_digits(p));
                    }
                    if nv > 65535 {
                        ok = false;
                        proof {
                            bad = e + 1;
                        }
                    } else {
                        value = nv;
                    }
                } else {
                    ok = false;
                    proof {
                        bad = e + 1;
                        assert(s.subrange(start as int, bad)[e - start] == ch);
                    }
                }
            }
            e = e + 1;
        }
        proof {
            lemma_colon_from_bounds(s, c + 1);
            assert(colon_from(s, c + 1) == e) by {
                if colon_from(s, c + 1) < e {
                    assert(s[colon_from(s, c + 1)] == ':');
                }
            }
        }
        let ghost port = s.subrange(start as int, e as int);
        assert(s.subrange(c + 1, e as int) == port_text(s));
        assert(port =~= port_digits(s)) by {
            if start == c + 2 {
                assert(port_text(s)[0] == '+');
                assert(port_text(s).drop_first() =~= port);
            } else {
                if port_text(s).len() > 0 {
                    assert(port_text(s)[0] == s[c + 1]);
                }
            }
        }
        if !ok || e == start {
            proof {
                if !ok && all_digits(port) {
                    assert(s.subrange(start as int, bad) =~= port.subrange(0, bad - start));
                    lemma_digits_value_prefix(port, bad - start);
                }
            }
            return None;
        }
        let ip = text.substring_char(0, c).to_string();
        Some(Address { ip, port: value as u16 })
    }

    /// Reads `ip:port`; the text must hold a valid address.
    pub fn from_string(address: String) -> (r: Address)
        requires
            is_address_text(address@),
        ensures
            r.ip_view() == host_text(address@),
            r.port_view() as nat == digits_value(port_digits(address@)),
    {
        match Address::try_from_string(&address) {
            Some(a) => a,
            None => Address { ip: address, port: 0 },
        }
    }
}

} // verus!
