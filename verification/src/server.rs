//! The flow identity: source and destination endpoint of a captured TCP
//! connection, and its decimal rendering.

use vstd::prelude::*;

verus! {

/// The character of one decimal digit.
pub open spec fn digit_char(d: int) -> char {
    if d == 0 {
        '0'
    } else if d == 1 {
        '1'
    } else if d == 2 {
        '2'
    } else if d == 3 {
        '3'
    } else if d == 4 {
        '4'
    } else if d == 5 {
        '5'
    } else if d == 6 {
        '6'
    } else if d == 7 {
        '7'
    } else if d == 8 {
        '8'
    } else {
        '9'
    }
}

/// The decimal numeral of `n >= 0`, most significant digit first.
pub open spec fn dec_digits(n: int) -> Seq<char>
    decreases n,
{
    if n < 10 {
        seq![digit_char(n)]
    } else {
        dec_digits(n / 10) + seq![digit_char(n % 10)]
    }
}

fn digit_str(d: u64) -> (r: &'static str)
    requires
        d < 10,
    ensures
        r@ == seq![digit_char(d as int)],
{
    proof {
        reveal_strlit("0");
        reveal_strlit("1");
        reveal_strlit("2");
        reveal_strlit("3");
        reveal_strlit("4");
        reveal_strlit("5");
        reveal_strlit("6");
        reveal_strlit("7");
        reveal_strlit("8");
        reveal_strlit("9");
    }
    let r: &'static str = if d == 0 {
        "0"
    } else if d == 1 {
        "1"
    } else if d == 2 {
        "2"
    } else if d == 3 {
        "3"
    } else if d == 4 {
        "4"
    } else if d == 5 {
        "5"
    } else if d == 6 {
        "6"
    } else if d == 7 {
        "7"
    } else if d == 8 {
        "8"
    } else {
        "9"
    };
    proof {
        assert(r@ =~= seq![digit_char(d as int)]);
    }
    r
}

/// Renders `n` in decimal.
pub fn u64_dec_string(n: u64) -> (r: String)
    ensures
        r@ == dec_digits(n as int),
    decreases n,
{
    if n < 10 {
        let mut s = String::new();
        s.append(digit_str(n));
        proof {
            assert(s@ =~= dec_digits(n as int));
        }
        s
    } else {
        let mut s = u64_dec_string(n / 10);
        s.append(digit_str(n % 10));
        proof {
            assert(s@ =~= dec_digits(n as int));
        }
        s
    }
}

/// The decimal dotted-quad rendering of an IPv4 address.
pub open spec fn sp_ip_str(ip: Seq<u8>) -> Seq<char> {
    dec_digits(ip[0] as int) + seq!['.'] + dec_digits(ip[1] as int) + seq!['.'] + dec_digits(
        ip[2] as int,
    ) + seq!['.'] + dec_digits(ip[3] as int)
}

/// Renders an IPv4 address as its dotted decimal quad.
pub fn ip_to_str(ip: &[u8; 4]) -> (r: String)
    ensures
        r@ == sp_ip_str(ip@),
{
    proof {
        reveal_strlit(".");
    }
    let mut s = u64_dec_string(ip[0] as u64);
    s.append(".");
    let p1 = u64_dec_string(ip[1] as u64);
    s.append(p1.as_str());
    s.append(".");
    let p2 = u64_dec_string(ip[2] as u64);
    s.append(p2.as_str());
    s.append(".");
    let p3 = u64_dec_string(ip[3] as u64);
    s.append(p3.as_str());
    proof {
        assert(s@ =~= sp_ip_str(ip@));
    }
    s
}

/// A flow identity: the four-tuple selecting one captured TCP connection.
#[derive(Copy, Clone, PartialEq, Eq)]
pub struct Server {
    src_addr: [u8; 4],
    src_port: u16,
    dst_addr: [u8; 4],
    dst_port: u16,
}

impl Server {
    /// The four-tuple as mathematical values.
    pub closed spec fn model(&self) -> (Seq<u8>, u16, Seq<u8>, u16) {
        (self.src_addr@, self.src_port, self.dst_addr@, self.dst_port)
    }

    /// A flow identity from its four-tuple.
    pub fn new(src_addr: [u8; 4], src_port: u16, dst_addr: [u8; 4], dst_port: u16) -> (r: Self)
        ensures
            r.model() == (src_addr@, src_port, dst_addr@, dst_port),
    {
        Server { src_addr, src_port, dst_addr, dst_port }
    }

    /// Renders the flow as `src:port -> dst:port`.
    pub fn display_string(&self) -> (r: String)
        ensures
            r@ == sp_ip_str(self.model().0) + seq![':'] + dec_digits(self.model().1 as int) + seq![
                ' ',
                '-',
                '>',
                ' ',
            ] + sp_ip_str(self.model().2) + seq![':'] + dec_digits(self.model().3 as int),
    {
        proof {
            reveal_strlit(":");
            reveal_strlit(" -> ");
        }
        let mut s = ip_to_str(&self.src_addr);
        s.append(":");
        let sp = u64_dec_string(self.src_port as u64);
        s.append(sp.as_str());
        s.append(" -> ");
        let d = ip_to_str(&self.dst_addr);
        s.append(d.as_str());
        s.append(":");
        let dp = u64_dec_string(self.dst_port as u64);
        s.append(dp.as_str());
        proof {
            assert(s@ =~= sp_ip_str(self.model().0) + seq![':'] + dec_digits(
                self.model().1 as int,
            ) + seq![' ', '-', '>', ' '] + sp_ip_str(self.model().2) + seq![':'] + dec_digits(
                self.model().3 as int,
            ));
        }
        s
    }
}

} // verus!
