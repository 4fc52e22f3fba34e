use vstd::prelude::*;

verus! {

/// Whether `pattern` compiles as a regular expression that matches somewhere
/// in `text`.
pub uninterp spec fn regex_finds(pattern: Seq<char>, text: Seq<char>) -> bool;

/// Whether `pattern` compiles as a regular expression with the default
/// settings: it is valid and within the default size limit.
pub uninterp spec fn regex_compiles(pattern: Seq<char>) -> bool;

/// Relies on `regex::Regex::new` and `regex::Regex::is_match`: `None` when
/// the pattern does not compile, else whether it matches anywhere in the text.
#[verifier::external_body]
fn regex_is_match(pattern: &str, text: &str) -> (r: Option<bool>)
    ensures
        r.is_some() == regex_compiles(pattern@),
        r.is_some() ==> r.unwrap() == regex_finds(pattern@, text@),
{
    match regex::Regex::new(pattern) {
        Ok(re) => Some(re.is_match(text)),
        Err(_) => None,
    }
}

/// The schemes a path handed to the system opener must start with, followed
/// by at least one character.
pub const OPEN_TARGET_PATTERN: &'static str = "^((https://)|(http://)|(mailto:)|(vscode://)|(vscodium://)).+";

/// Why a path may not be opened.
#[derive(Debug, PartialEq, Eq, Structural, Clone, Copy)]
pub enum OpenError {
    /// The path does not have an accepted scheme.
    InvalidPathFormat,
    /// The scheme pattern did not compile.
    InvalidPattern,
}

/// Decides from the outcome of matching the scheme pattern: `None` when the
/// pattern did not compile, else whether it matched.
pub fn open_target_verdict(matched: Option<bool>) -> (r: Result<(), OpenError>)
    ensures
        r == match matched {
            None => Err(OpenError::InvalidPattern),
            Some(true) => Ok(()),
            Some(false) => Err(OpenError::InvalidPathFormat),
        },
{
    match matched {
        None => Err(OpenError::InvalidPattern),
        Some(true) => Ok(()),
        Some(false) => Err(OpenError::InvalidPathFormat),
    }
}

/// Checks that a path may be handed to the system opener: it must match
/// the scheme pattern.
pub fn validate_open_target(path: &str) -> (r: Result<(), OpenError>)
    ensures
        r == if !regex_compiles(OPEN_TARGET_PATTERN@) {
            Err(OpenError::InvalidPattern)
        } else if regex_finds(OPEN_TARGET_PATTERN@, path@) {
            Ok(())
        } else {
            Err(OpenError::InvalidPathFormat)
        },
{
    let matched = regex_is_match(OPEN_TARGET_PATTERN, path);
    open_target_verdict(matched)
}

/// The bytes of `appimage-run`: a search-path entry holding them belongs to
/// the AppImage runtime and is dropped from the opener's environment.
pub open spec fn appimage_marker() -> Seq<u8> {
    seq![97u8, 112u8, 112u8, 105u8, 109u8, 97u8, 103u8, 101u8, 45u8, 114u8, 117u8, 110u8]
}

/// The pieces of `s` between colons, in order; one piece when there is no
/// colon.
pub open spec fn split_colon(s: Seq<u8>) -> Seq<Seq<u8>>
    decreases s.len(),
{
    if s.len() == 0 {
        seq![Seq::empty()]
    } else {
        let prev = split_colon(s.drop_last());
        if s.last() == 58u8 {
            prev.push(Seq::empty())
        } else {
            prev.update(prev.len() - 1, prev.last().push(s.last()))
        }
    }
}

pub open spec fn has_sub(s: Seq<u8>, n: Seq<u8>) -> bool {
    exists|i: int| 0 <= i && i + n.len() <= s.len() && #[trigger] s.subrange(i, i + n.len()) == n
}

/// The pieces that do not hold `n`, in order.
pub open spec fn pieces_without(segs: Seq<Seq<u8>>, n: Seq<u8>) -> Seq<Seq<u8>>
    decreases segs.len(),
{
    if segs.len() == 0 {
        Seq::empty()
    } else {
        let prev = pieces_without(segs.drop_last(), n);
        if has_sub(segs.last(), n) {
            prev
        } else {
            prev.push(segs.last())
        }
    }
}

/// The pieces joined with colons.
pub open spec fn join_colon(segs: Seq<Seq<u8>>) -> Seq<u8>
    decreases segs.len(),
{
    if segs.len() == 0 {
        Seq::empty()
    } else if segs.len() == 1 {
        segs[0]
    } else {
        join_colon(segs.drop_last()).push(58u8) + segs.last()
    }
}

/// Whether `n` occurs in `s`.
fn contains_bytes(s: &Vec<u8>, n: &Vec<u8>) -> (r: bool)
    ensures
        r == has_sub(s@, n@),
{
    if n.len() > s.len() {
        return false;
    }
    if n.len() == 0 {
        assert(s@.subrange(0int, 0int + n@.len()) =~= n@);
        return true;
    }
    let sl: usize = s.len();
    let last: usize = sl - n.len();
    let mut i: usize = 0;
    while i <= last
        invariant
            n@.len() <= s@.len(),
            1 <= n@.len(),
            sl == s@.len(),
            last + n@.len() == s@.len(),
            0 <= i <= last + 1,
            forall|k: int| 0 <= k < i ==> #[trigger] s@.subrange(k, k + n@.len()) != n@,
        decreases s@.len() - i,
    {
        let mut j: usize = 0;
        let mut same = true;
        while j < n.len()
            invariant
                i <= last,
                sl == s@.len(),
                last + n@.len() == s@.len(),
                0 <= j <= n@.len(),
                same == forall|m: int| 0 <= m < j ==> s@[i + m] == n@[m],
            decreases n@.len() - j,
        {
            if s[i + j] != n[j] {
                same = false;
            }
            j = j + 1;
        }
        if same {
            assert(s@.subrange(i as int, i + n@.len()) =~= n@);
            return true;
        }
        proof {
            if s@.subrange(i as int, i + n@.len()) == n@ {
                assert forall|m: int| 0 <= m < n@.len() implies s@[i + m] == n@[m] by {
                    assert(s@.subrange(i as int, i + n@.len())[m] == s@[i + m]);
                }
            }
        }
        i = i + 1;
    }
    proof {
        assert forall|k: int| 0 <= k && k + n@.len() <= s@.len() implies #[trigger] s@.subrange(k, k + n@.len()) != n@ by {
            assert(k < i);
        }
    }
    false
}

/// Appends the piece to the joined output when it does not hold `n`.
fn flush_piece(out: &mut Vec<u8>, any: &mut bool, piece: &Vec<u8>, n: &Vec<u8>, Ghost(done): Ghost<Seq<Seq<u8>>>)
    requires
        old(out)@ == join_colon(pieces_without(done, n@)),
        *old(any) == (pieces_without(done, n@).len() > 0),
    ensures
        final(out)@ == join_colon(pieces_without(done.push(piece@), n@)),
        *final(any) == (pieces_without(done.push(piece@), n@).len() > 0),
{
    assert(done.push(piece@).drop_last() =~= done);
    if !contains_bytes(piece, n) {
        let ghost kept = pieces_without(done, n@);
        assert(kept.push(piece@).drop_last() =~= kept);
        if *any {
            out.push(58u8);
        }
        let mut k: usize = 0;
        let ghost start = out@;
        while k < piece.len()
            invariant
                0 <= k <= piece@.len(),
                out@ == start + piece@.subrange(0, k as int),
            decreases piece@.len() - k,
        {
            out.push(piece[k]);
            k = k + 1;
            assert(out@ =~= start + piece@.subrange(0, k as int));
        }
        assert(piece@.subrange(0, piece@.len() as int) =~= piece@);
        proof {
            if kept.len() == 0 {
                assert(out@ =~= piece@);
            }
        }
        *any = true;
    }
}

/// Drops from a colon-separated list every piece that holds `marker`, and
/// joins what is left with colons.
pub fn strip_segments_containing(value: &Vec<u8>, marker: &Vec<u8>) -> (r: Vec<u8>)
    ensures
        r@ == join_colon(pieces_without(split_colon(value@), marker@)),
{
    let mut out: Vec<u8> = Vec::new();
    let mut any = false;
    let mut cur: Vec<u8> = Vec::new();
    let ghost mut done: Seq<Seq<u8>> = Seq::empty();
    let mut i: usize = 0;
    assert(value@.take(0) =~= Seq::<u8>::empty());
    assert(done.push(cur@) =~= seq![Seq::<u8>::empty()]);
    while i < value.len()
        invariant
            0 <= i <= value@.len(),
            split_colon(value@.take(i as int)) == done.push(cur@),
            out@ == join_colon(pieces_without(done, marker@)),
            any == (pieces_without(done, marker@).len() > 0),
        decreases value@.len() - i,
    {
        let b = value[i];
        assert(value@.take(i + 1).drop_last() =~= value@.take(i as int));
        assert(value@.take(i + 1).last() == b);
        if b == 58u8 {
            flush_piece(&mut out, &mut any, &cur, marker, Ghost(done));
            proof {
                done = done.push(cur@);
            }
            cur = Vec::new();
            assert(split_colon(value@.take(i + 1)) =~= done.push(cur@));
        } else {
            cur.push(b);
            assert(split_colon(value@.take(i + 1)) =~= done.push(cur@));
        }
        i = i + 1;
    }
    assert(value@.take(value@.len() as int) =~= value@);
    flush_piece(&mut out, &mut any, &cur, marker, Ghost(done));
    out
}

/// Cleans one environment value for the opener: search-path pieces of the
/// AppImage runtime are dropped.
pub fn clean_env_value(value: &Vec<u8>) -> (r: Vec<u8>)
    ensures
        r@ == join_colon(pieces_without(split_colon(value@), appimage_marker())),
{
    let marker: Vec<u8> = vec![97u8, 112u8, 112u8, 105u8, 109u8, 97u8, 103u8, 101u8, 45u8, 114u8, 117u8, 110u8];
    assert(marker@ =~= appimage_marker());
    strip_segments_containing(value, &marker)
}

} // verus!
