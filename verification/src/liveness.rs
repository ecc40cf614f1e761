//! The address handling of the liveness prober: stripping the node
//! identifier prefix off a canonical address to obtain the bare host:port
//! that a TCP probe connects to.
use vstd::prelude::*;

verus! {

/// The index of the last `@` in a string, or -1 when it has none.
pub open spec fn last_at_sign(s: Seq<char>) -> int
    decreases s.len(),
{
    if s.len() == 0 {
        -1
    } else if s[s.len() - 1] == '@' {
        s.len() - 1
    } else {
        last_at_sign(s.take(s.len() - 1))
    }
}

/// The host:port part of a canonical address: everything after the last
/// `@`, or the whole string when there is none.
pub open spec fn spec_host_port(s: Seq<char>) -> Seq<char> {
    s.subrange(last_at_sign(s) + 1, s.len() as int)
}

/// A position holding `@` with none after it is the last `@`.
proof fn lemma_last_at_sign(s: Seq<char>, k: int)
    requires
        0 <= k < s.len(),
        s[k] == '@',
        forall|j: int| k < j < s.len() ==> s[j] != '@',
    ensures
        last_at_sign(s) == k,
    decreases s.len(),
{
    if k < s.len() - 1 {
        let t = s.take(s.len() - 1);
        lemma_last_at_sign(t, k);
    }
}

/// A string without `@` has no last `@`.
proof fn lemma_no_at_sign(s: Seq<char>)
    requires
        forall|j: int| 0 <= j < s.len() ==> s[j] != '@',
    ensures
        last_at_sign(s) == -1,
    decreases s.len(),
{
    if s.len() > 0 {
        lemma_no_at_sign(s.take(s.len() - 1));
    }
}

/// Strips the node identifier prefix off a canonical address: the part
/// after the last `@`, or the whole address when it has none. What comes
/// back is what a liveness probe connects to.
pub fn host_port(addr: &str) -> (r: String)
    ensures
        r@ == spec_host_port(addr@),
{
    let n = addr.unicode_len();
    let mut last: Option<usize> = None;
    let mut i: usize = 0;
    while i < n
        invariant
            i <= n,
            n == addr@.len(),
            match last {
                Some(k) => k < i && addr@[k as int] == '@' && (forall|j: int|
                    k < j < i ==> addr@[j] != '@'),
                None => forall|j: int| 0 <= j < i ==> addr@[j] != '@',
            },
        decreases n - i,
    {
        if addr.get_char(i) == '@' {
            last = Some(i);
        }
        i = i + 1;
    }
    match last {
        Some(k) => {
            proof {
                lemma_last_at_sign(addr@, k as int);
            }
            let part = addr.substring_char(k + 1, n);
            part.to_owned()
        },
        None => {
            proof {
                lemma_no_at_sign(addr@);
                assert(addr@.subrange(0, addr@.len() as int) =~= addr@);
            }
            addr.to_owned()
        },
    }
}

} // verus!
