//! One line of the feed: an address range and the autonomous system that
//! announces it.
use crate::ip::{ip_of, parse_ip, IpAddress};
use crate::text::{digits_u32, PLUS, TAB, parse_digits_u32, ranges_match, split, split_ranges};
use vstd::prelude::*;
use vstd::utf8::{decode_utf8, valid_utf8};

verus! {

/// An inclusive range of addresses and the autonomous system that announces
/// it. Number 0 marks space that nobody announces.
#[derive(Debug)]
pub struct ASN {
    pub first_ip: IpAddress,
    pub last_ip: IpAddress,
    pub number: u32,
    pub country: String,
    pub description: String,
}

/// What a record holds, with its texts as character sequences.
pub struct AsnView {
    pub first_ip: IpAddress,
    pub last_ip: IpAddress,
    pub number: u32,
    pub country: Seq<char>,
    pub description: Seq<char>,
}

impl View for ASN {
    type V = AsnView;

    open spec fn view(&self) -> AsnView {
        AsnView {
            first_ip: self.first_ip,
            last_ip: self.last_ip,
            number: self.number,
            country: self.country@,
            description: self.description@,
        }
    }
}

/// Records compare as equal when they start at the same address.
impl PartialEq for ASN {
    fn eq(&self, other: &ASN) -> (r: bool) {
        self.first_ip == other.first_ip
    }
}

impl vstd::std_specs::cmp::PartialEqSpecImpl for ASN {
    open spec fn obeys_eq_spec() -> bool {
        true
    }

    open spec fn eq_spec(&self, other: &ASN) -> bool {
        self.first_ip == other.first_ip
    }
}

/// An AS number as `u32`'s parser reads it: an optional `+`, then decimal digits.
pub open spec fn number_of(s: Seq<u8>) -> Option<u32> {
    if s.len() > 0 && s[0] == PLUS {
        digits_u32(s.drop_first())
    } else {
        digits_u32(s)
    }
}

/// Bytes that are valid UTF-8, as the characters they encode.
pub open spec fn text_of(b: Seq<u8>) -> Option<Seq<char>> {
    if valid_utf8(b) {
        Some(decode_utf8(b))
    } else {
        None
    }
}

/// A feed line: tab-separated first address, last address, AS number,
/// country code and description. Fields after the fifth are ignored.
pub open spec fn record_of(line: Seq<u8>) -> Option<AsnView> {
    let f = split(line, TAB);
    if f.len() >= 5 && ip_of(f[0]) is Some && ip_of(f[1]) is Some && number_of(f[2]) is Some
        && text_of(f[3]) is Some && text_of(f[4]) is Some {
        Some(
            AsnView {
                first_ip: ip_of(f[0])->0,
                last_ip: ip_of(f[1])->0,
                number: number_of(f[2])->0,
                country: text_of(f[3])->0,
                description: text_of(f[4])->0,
            },
        )
    } else {
        None
    }
}

/// Relies on `String::from_utf8`: it succeeds exactly on valid UTF-8 and
/// keeps the characters that the bytes encode.
#[verifier::external_body]
fn string_from_utf8(b: &[u8]) -> (r: Option<String>)
    ensures
        match r {
            Some(t) => valid_utf8(b@) && t@ == decode_utf8(b@),
            None => !valid_utf8(b@),
        },
{
    String::from_utf8(b.to_vec()).ok()
}

fn parse_number(s: &[u8]) -> (r: Option<u32>)
    ensures
        r == number_of(s@),
{
    if s.len() > 0 && s[0] == PLUS {
        assert(s@.subrange(1, s@.len() as int) =~= s@.drop_first());
        parse_digits_u32(&s[1..s.len()])
    } else {
        parse_digits_u32(s)
    }
}

impl ASN {
    /// Reads one feed line; `None` where the line is malformed.
    pub fn parse(line: &[u8]) -> (r: Option<ASN>)
        ensures
            match r {
                Some(a) => record_of(line@) == Some(a@),
                None => record_of(line@) is None,
            },
    {
        let f = split_ranges(line, TAB);
        if f.len() < 5 {
            return None;
        }
        let ghost sf = split(line@, TAB);
        assert(ranges_match(line@, f@, sf, 5));
        assert(f@[0].0 <= f@[0].1 && f@[1].0 <= f@[1].1 && f@[2].0 <= f@[2].1 && f@[3].0 <= f@[3].1
            && f@[4].0 <= f@[4].1);
        let first_ip = match parse_ip(&line[f[0].0..f[0].1]) {
            Some(a) => a,
            None => return None,
        };
        let last_ip = match parse_ip(&line[f[1].0..f[1].1]) {
            Some(a) => a,
            None => return None,
        };
        let number = match parse_number(&line[f[2].0..f[2].1]) {
            Some(n) => n,
            None => return None,
        };
        let country = match string_from_utf8(&line[f[3].0..f[3].1]) {
            Some(t) => t,
            None => return None,
        };
        let description = match string_from_utf8(&line[f[4].0..f[4].1]) {
            Some(t) => t,
            None => return None,
        };
        Some(ASN { first_ip, last_ip, number, country, description })
    }
}

} // verus!
