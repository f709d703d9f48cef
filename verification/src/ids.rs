//! Node identity and the clock.
//!
//! A node identifier has the form `"<ip>:<port>|<unix-seconds>"`: the
//! part before the first `'|'` is the node's UDP endpoint, the suffix
//! the timestamp of its join, which keeps identifiers unique across
//! re-joins from the same endpoint.

use crate::Error;
use vstd::prelude::*;

verus! {

/// Seconds since the Unix epoch.
pub type Timestamp = u64;

/// True when the identifier contains the `'|'` separator.
pub open spec fn has_sep(s: Seq<char>) -> bool {
    exists|i: int| 0 <= i < s.len() && s[i] == '|'
}

/// Index of the first `'|'` in `s` (its length when there is none).
pub open spec fn sep_index(s: Seq<char>) -> int
    decreases s.len(),
{
    if s.len() == 0 {
        0
    } else if s.first() == '|' {
        0
    } else {
        1 + sep_index(s.drop_first())
    }
}

/// The UDP endpoint part of an identifier: everything before the first
/// `'|'`.
pub open spec fn ip_of(s: Seq<char>) -> Seq<char> {
    s.take(sep_index(s))
}

/// The first position holding `'|'` is what `sep_index` computes.
pub proof fn lemma_sep_index_first(s: Seq<char>, i: int)
    requires
        0 <= i < s.len(),
        s[i] == '|',
        forall|j: int| 0 <= j < i ==> s[j] != '|',
    ensures
        sep_index(s) == i,
    decreases i,
{
    if i > 0 {
        assert(s.first() != '|');
        assert(forall|j: int| 0 <= j < i - 1 ==> s.drop_first()[j] == s[j + 1]);
        assert(s.drop_first()[i - 1] == s[i]);
        lemma_sep_index_first(s.drop_first(), i - 1);
    }
}

/// The decimal digit character for `d`.
pub open spec fn dec_digit(d: int) -> char
    recommends
        0 <= d < 10,
{
    ((48 + d) as u32) as char
}

/// The decimal representation of `n`, most significant digit first,
/// without leading zeros.
pub open spec fn dec_str(n: nat) -> Seq<char>
    decreases n,
{
    if n < 10 {
        seq![dec_digit(n as int)]
    } else {
        dec_str(n / 10).push(dec_digit((n % 10) as int))
    }
}

/// Relies on the standard library's decimal formatting of `u64`
/// (`Display`, reached through `format!`): base-ten digits only, most
/// significant first, no sign and no leading zeros.
#[verifier::external_body]
pub fn u64_to_string(n: u64) -> (r: String)
    ensures
        r@ == dec_str(n as nat),
{
    format!("{}", n)
}

/// Relies on `std::time::SystemTime::now` followed by
/// `duration_since(UNIX_EPOCH)` and `Duration::as_secs`: whole seconds
/// since the Unix epoch, or an error when the system clock predates the
/// epoch.  Nothing is assumed about the value returned; callers take it
/// as an arbitrary timestamp.
#[verifier::external_body]
pub fn get_timestamp() -> (r: Result<Timestamp, Error>) {
    match std::time::SystemTime::now().duration_since(std::time::UNIX_EPOCH) {
        Ok(d) => Ok(d.as_secs()),
        Err(_) => Err(Error::ClockBeforeEpoch),
    }
}

/// Builds the identifier `"<my_ip>|<now>"`.
pub fn gen_id(my_ip: &String, now: Timestamp) -> (r: String)
    ensures
        r@ == my_ip@ + seq!['|'] + dec_str(now as nat),
{
    let mut r = my_ip.clone();
    proof {
        reveal_strlit("|");
    }
    r.append("|");
    let digits = u64_to_string(now);
    r.append(digits.as_str());
    proof {
        assert("|"@ =~= seq!['|']);
        assert(r@ =~= my_ip@ + seq!['|'] + dec_str(now as nat));
    }
    r
}

/// Returns the UDP endpoint part of `id`, or `None` when the identifier
/// lacks the `'|'` separator.
pub fn ip_from_id(id: &String) -> (r: Option<String>)
    ensures
        r is Some <==> has_sep(id@),
        r matches Some(ip) ==> ip@ == ip_of(id@),
{
    let n = id.as_str().unicode_len();
    let mut i: usize = 0;
    while i < n
        invariant
            i <= n,
            n == id@.len(),
            forall|j: int| 0 <= j < i ==> id@[j] != '|',
        decreases n - i,
    {
        let c = id.as_str().get_char(i);
        if c == '|' {
            proof {
                lemma_sep_index_first(id@, i as int);
            }
            let ip = id.as_str().substring_char(0, i);
            proof {
                assert(id@.subrange(0, i as int) =~= id@.take(i as int));
            }
            return Some(ip.to_owned());
        }
        i = i + 1;
    }
    None
}

/// Maps each identifier to its UDP endpoint; `None` when any identifier
/// lacks the separator.
pub fn ips_from_ids(ids: &Vec<String>) -> (r: Option<Vec<String>>)
    ensures
        r is Some <==> (forall|k: int| 0 <= k < ids@.len() ==> has_sep(ids@[k]@)),
        r matches Some(v) ==> v@.len() == ids@.len() && (forall|k: int|
            0 <= k < ids@.len() ==> v@[k]@ == ip_of(ids@[k]@)),
{
    let n = ids.len();
    let mut out: Vec<String> = Vec::new();
    let mut i: usize = 0;
    while i < n
        invariant
            i <= n,
            n == ids@.len(),
            out@.len() == i,
            forall|k: int| 0 <= k < i ==> has_sep(ids@[k]@),
            forall|k: int| 0 <= k < i ==> out@[k]@ == ip_of(ids@[k]@),
        decreases n - i,
    {
        match ip_from_id(&ids[i]) {
            Some(ip) => {
                out.push(ip);
            },
            None => {
                return None;
            },
        }
        i = i + 1;
    }
    Some(out)
}

} // verus!
