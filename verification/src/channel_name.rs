//! Channel-name helpers for the status sub-protocol: list entries arrive as
//! `"<name> <user_count>"` and a successful join is announced by a status
//! line of the form `"You joined the channel <name>"`.
use vstd::prelude::*;

verus! {

/// Index of the last space in `s`, or -1 when `s` holds none.
pub open spec fn last_space(s: Seq<char>) -> int
    decreases s.len(),
{
    if s.len() == 0 {
        -1
    } else if s[s.len() - 1] == ' ' {
        s.len() - 1
    } else {
        last_space(s.drop_last())
    }
}

/// The channel display name: everything before the final space-delimited
/// token, or empty when the entry has a single token.
pub open spec fn strip_user_count(s: Seq<char>) -> Seq<char> {
    if last_space(s) >= 0 {
        s.subrange(0, last_space(s))
    } else {
        Seq::empty()
    }
}

proof fn lemma_last_space_take(s: Seq<char>, i: int)
    requires
        0 <= i <= s.len(),
        forall|j: int| i <= j < s.len() ==> s[j] != ' ',
    ensures
        last_space(s) == last_space(s.take(i)),
    decreases s.len() - i,
{
    if i == s.len() {
        assert(s.take(i) =~= s);
    } else {
        lemma_last_space_take(s, i + 1);
        assert(s.take(i + 1).drop_last() =~= s.take(i));
    }
}

/// Strips the trailing space-delimited user-count token from a channel list
/// entry, leaving the bare display name.
pub fn get_channel_name(name_with_user_count: String) -> (r: String)
    ensures
        r@ == strip_user_count(name_with_user_count@),
{
    let s: &str = name_with_user_count.as_str();
    let n: usize = s.unicode_len();
    let mut i: usize = n;
    while i > 0
        invariant
            0 <= i <= n,
            n == s@.len(),
            s@ == name_with_user_count@,
            forall|j: int| i <= j < s@.len() ==> s@[j] != ' ',
        decreases i,
    {
        if s.get_char(i - 1) == ' ' {
            proof {
                lemma_last_space_take(s@, i as int);
                assert(s@.take(i as int).len() == i);
                assert(s@.take(i as int)[i - 1] == ' ');
                assert(last_space(s@) == i - 1);
            }
            let name = s.substring_char(0, i - 1);
            proof {
                assert(name@ =~= strip_user_count(s@));
            }
            return name.to_owned();
        }
        i = i - 1;
    }
    proof {
        lemma_last_space_take(s@, 0);
        assert(s@.take(0) =~= Seq::<char>::empty());
        assert(last_space(s@) == -1);
    }
    String::new()
}

// ------------------------------------------------------------------
// The join announcement: a status line of the shape
// `You joined the channel <name>` names the channel just joined. The
// name is everything after the whitespace run that follows the fixed
// prefix; a line that ends in whitespace, or whose remainder spans a
// newline, does not announce a join.
// ------------------------------------------------------------------
/// Whitespace as the status matcher counts it: the Unicode White_Space
/// characters.
pub open spec fn is_space(c: char) -> bool {
    ||| (0x09 <= c as u32 <= 0x0d)
    ||| c as u32 == 0x20
    ||| c as u32 == 0x85
    ||| c as u32 == 0xa0
    ||| c as u32 == 0x1680
    ||| (0x2000 <= c as u32 <= 0x200a)
    ||| c as u32 == 0x2028
    ||| c as u32 == 0x2029
    ||| c as u32 == 0x202f
    ||| c as u32 == 0x205f
    ||| c as u32 == 0x3000
}

/// First position at or after `i` holding a non-whitespace character.
pub open spec fn ws_run_end(s: Seq<char>, i: int) -> int
    decreases s.len() - i,
{
    if 0 <= i < s.len() && is_space(s[i]) {
        ws_run_end(s, i + 1)
    } else {
        i
    }
}

pub open spec fn has_newline(s: Seq<char>) -> bool {
    exists|k: int| 0 <= k < s.len() && s[k] == '\n'
}

/// The channel name captured by a join announcement, if the status line is
/// one: the fixed prefix, at least one whitespace character, then a
/// non-empty remainder free of newlines. A line that is all whitespace
/// after the prefix still matches when its last character can stand as the
/// name (it is not a newline).
pub open spec fn join_capture(s: Seq<char>) -> Option<Seq<char>> {
    if s.len() >= 24 && s.subrange(0, 22) == "You joined the channel"@ && is_space(s[22]) {
        let k = ws_run_end(s, 22);
        if k < s.len() {
            if has_newline(s.skip(k)) {
                None
            } else {
                Some(s.skip(k))
            }
        } else {
            if s[s.len() - 1] != '\n' {
                Some(seq![s[s.len() - 1]])
            } else {
                None
            }
        }
    } else {
        None
    }
}

fn is_space_exec(c: char) -> (r: bool)
    ensures
        r == is_space(c),
{
    let x = c as u32;
    (0x09 <= x && x <= 0x0d) || x == 0x20 || x == 0x85 || x == 0xa0 || x == 0x1680 || (0x2000
        <= x && x <= 0x200a) || x == 0x2028 || x == 0x2029 || x == 0x202f || x == 0x205f || x
        == 0x3000
}

/// Matches a status line against the join announcement and returns the
/// captured channel name.
#[verifier::loop_isolation(false)]
pub fn match_join_status(status: &str) -> (r: Option<String>)
    ensures
        (match r {
            Some(c) => join_capture(status@) == Some(c@),
            None => join_capture(status@) is None,
        }),
{
    let n = status.unicode_len();
    if n < 24 {
        return None;
    }
    let prefix = "You joined the channel";
    proof {
        reveal_strlit("You joined the channel");
        assert(prefix@.len() == 22);
    }
    let mut i: usize = 0;
    while i < 22
        invariant
            0 <= i <= 22,
            forall|j: int| 0 <= j < i ==> status@[j] == prefix@[j],
        decreases 22 - i,
    {
        if status.get_char(i) != prefix.get_char(i) {
            proof {
                assert(status@.subrange(0, 22) != "You joined the channel"@) by {
                    assert(status@.subrange(0, 22)[i as int] == status@[i as int]);
                }
            }
            return None;
        }
        i = i + 1;
    }
    proof {
        assert(status@.subrange(0, 22) =~= prefix@);
    }
    if !is_space_exec(status.get_char(22)) {
        return None;
    }
    let mut k: usize = 22;
    while k < n && is_space_exec(status.get_char(k))
        invariant
            22 <= k <= n,
            ws_run_end(status@, 22) == ws_run_end(status@, k as int),
        decreases n - k,
    {
        k = k + 1;
    }
    proof {
        assert(ws_run_end(status@, k as int) == k);
    }
    if k < n {
        let mut q: usize = k;
        while q < n
            invariant
                k <= q <= n,
                forall|j: int| k <= j < q ==> status@[j] != '\n',
            decreases n - q,
        {
            if status.get_char(q) == '\n' {
                proof {
                    assert(status@.skip(k as int)[q - k] == '\n');
                    assert(has_newline(status@.skip(k as int)));
                }
                return None;
            }
            q = q + 1;
        }
        proof {
            assert(!has_newline(status@.skip(k as int))) by {
                assert(forall|j: int|
                    0 <= j < status@.skip(k as int).len() ==> #[trigger] status@.skip(
                        k as int,
                    )[j] == status@[j + k]);
            }
        }
        let cap = status.substring_char(k, n).to_owned();
        proof {
            assert(cap@ =~= status@.skip(k as int));
        }
        Some(cap)
    } else {
        if status.get_char(n - 1) != '\n' {
            let cap = status.substring_char(n - 1, n).to_owned();
            proof {
                assert(cap@ =~= seq![status@[n - 1]]);
            }
            Some(cap)
        } else {
            None
        }
    }
}

} // verus!
