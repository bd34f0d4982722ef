//! Which video devices are offered as cameras: infrared cameras recognised
//! by their names, and one camera per PipeWire object.
use vstd::prelude::*;

verus! {

/// Whether `p` occurs in `s` at position `i`.
pub open spec fn occurs_at(s: Seq<char>, p: Seq<char>, i: int) -> bool {
    0 <= i && i + p.len() <= s.len() && s.subrange(i, i + p.len()) == p
}

/// Whether `s` names an infrared camera: it starts with `IR `, holds
/// ` IR ` or ends with ` IR`.
pub open spec fn names_ir(s: Seq<char>) -> bool {
    ||| occurs_at(s, "IR "@, 0)
    ||| exists|i: int| #[trigger] occurs_at(s, " IR "@, i)
    ||| occurs_at(s, " IR"@, s.len() - 3)
}

fn occurs_at_exec(s: &str, p: &str, i: usize) -> (r: bool)
    ensures
        r == occurs_at(s@, p@, i as int),
{
    let n = s.unicode_len();
    let m = p.unicode_len();
    if i > n || m > n - i {
        return false;
    }
    let mut k: usize = 0;
    while k < m
        invariant
            n == s@.len(),
            m == p@.len(),
            i + m <= n,
            k <= m,
            forall|q: int| 0 <= q < k ==> s@[i + q] == p@[q],
        decreases m - k,
    {
        if s.get_char(i + k) != p.get_char(k) {
            proof {
                assert(s@.subrange(i as int, i + m)[k as int] != p@[k as int]);
            }
            return false;
        }
        k = k + 1;
    }
    assert(s@.subrange(i as int, i + m) =~= p@);
    true
}

/// Whether a device name marks an infrared camera: `IR ` at its start,
/// ` IR ` anywhere, or ` IR` at its end.
pub fn contains_ir(s: &str) -> (r: bool)
    ensures
        r == names_ir(s@),
{
    proof {
        reveal_strlit("IR ");
        reveal_strlit(" IR ");
        reveal_strlit(" IR");
    }
    let n = s.unicode_len();
    if occurs_at_exec(s, "IR ", 0) {
        return true;
    }
    let mut i: usize = 0;
    while i < n
        invariant
            n == s@.len(),
            i <= n,
            forall|q: int| 0 <= q < i ==> !occurs_at(s@, " IR "@, q),
        decreases n - i,
    {
        if occurs_at_exec(s, " IR ", i) {
            return true;
        }
        i = i + 1;
    }
    assert forall|q: int| !(#[trigger] occurs_at(s@, " IR "@, q)) by {
        if q >= n {
            assert(" IR "@.len() == 4);
        }
    }
    if n >= 3 {
        occurs_at_exec(s, " IR", n - 3)
    } else {
        false
    }
}

/// Whether a device is taken for an infrared camera: its formats are all
/// infrared ones, or its nickname or display name marks it so.
pub open spec fn spec_is_ir_camera(caps_are_ir: bool, nick: Option<Seq<char>>, display_name: Seq<char>) -> bool {
    caps_are_ir || (nick matches Some(n) && names_ir(n)) || names_ir(display_name)
}

/// Whether a device is taken for an infrared camera. `caps_are_ir` tells
/// whether the device's formats all lie among the infrared formats.
pub fn is_ir_camera(caps_are_ir: bool, nick: Option<&str>, display_name: &str) -> (r: bool)
    ensures
        r == spec_is_ir_camera(
            caps_are_ir,
            match nick {
                Some(n) => Some(n@),
                None => None,
            },
            display_name@,
        ),
{
    if caps_are_ir {
        return true;
    }
    let by_nick = match nick {
        Some(n) => contains_ir(n),
        None => false,
    };
    by_nick || contains_ir(display_name)
}

/// Whether entry `i` of `keys` is the first with its key.
pub open spec fn first_with_key(keys: Seq<Option<u64>>, i: int) -> bool {
    forall|j: int| 0 <= j < i ==> keys[j] != keys[i]
}

/// The positions of the entries kept when each key is kept once: the first
/// entry with each key, in order. A missing key is a key like any other.
pub fn first_of_each_key(keys: &Vec<Option<u64>>) -> (r: Vec<usize>)
    ensures
        forall|k: int| 0 <= k < r.len() ==> #[trigger] r@[k] < keys.len() && first_with_key(keys@, r@[k] as int),
        forall|i: usize| i < keys.len() && first_with_key(keys@, i as int) ==> #[trigger] r@.contains(i),
        forall|a: int, b: int| 0 <= a < b < r.len() ==> #[trigger] r@[a] < #[trigger] r@[b],
        forall|a: int, b: int| 0 <= a < b < r.len() ==> keys@[#[trigger] r@[a] as int] != keys@[#[trigger] r@[b] as int],
{
    let mut r: Vec<usize> = Vec::new();
    let mut i: usize = 0;
    while i < keys.len()
        invariant
            i <= keys.len(),
            forall|k: int| 0 <= k < r.len() ==> #[trigger] r@[k] < i && first_with_key(keys@, r@[k] as int),
            forall|q: usize| q < i && first_with_key(keys@, q as int) ==> #[trigger] r@.contains(q),
            forall|a: int, b: int| 0 <= a < b < r.len() ==> keys@[#[trigger] r@[a] as int] != keys@[#[trigger] r@[b] as int],
            forall|a: int, b: int| 0 <= a < b < r.len() ==> #[trigger] r@[a] < #[trigger] r@[b],
        decreases keys.len() - i,
    {
        let mut seen = false;
        let mut j: usize = 0;
        while j < i
            invariant
                i < keys.len(),
                j <= i,
                seen == exists|q: int| 0 <= q < j && keys@[q] == keys@[i as int],
            decreases i - j,
        {
            if keys[j] == keys[i] {
                seen = true;
            }
            j = j + 1;
        }
        if !seen {
            let ghost old_r = r@;
            r.push(i);
            proof {
                assert forall|q: usize| q < i + 1 && first_with_key(keys@, q as int) implies #[trigger] r@.contains(q) by {
                    if q < i {
                        assert(old_r.contains(q));
                        let k = choose|k: int| 0 <= k < old_r.len() && old_r[k] == q;
                        assert(r@[k] == old_r[k]);
                    } else {
                        assert(r@[r.len() - 1] == i);
                    }
                }
            }
        } else {
            proof {
                let q = choose|q: int| 0 <= q < i && keys@[q] == keys@[i as int];
                assert(!first_with_key(keys@, i as int));
            }
        }
        i = i + 1;
    }
    r
}

/// A device is an infrared camera exactly when its formats are infrared
/// ones, its nickname names it so, or its display name names it so; each of
/// these suffices on its own, whatever the others say.
pub proof fn lemma_ir_camera_by_any_mark(caps_are_ir: bool, nick: Option<Seq<char>>, display_name: Seq<char>)
    ensures
        caps_are_ir ==> spec_is_ir_camera(caps_are_ir, nick, display_name),
        names_ir(display_name) ==> spec_is_ir_camera(caps_are_ir, nick, display_name),
        (nick matches Some(n) && names_ir(n)) ==> spec_is_ir_camera(caps_are_ir, nick, display_name),
        spec_is_ir_camera(caps_are_ir, nick, display_name) ==> caps_are_ir || names_ir(display_name) || (nick matches Some(
            n,
        ) && names_ir(n)),
{
}

} // verus!
