use vstd::prelude::*;

use crate::ai::candidate_moves_for_llm;
use crate::board::Board;
use crate::candidates::{base_candidates, ranked_from};
use crate::notation::{build_prompt, chars_of, coord_to_label, label_of, prompt_text, text_of, SYSTEM_PROMPT};
use crate::reply::{strip_suffix, trim};
use crate::types::{Coord, Move, Player};

verus! {

/// Attempts made at asking the proposer before giving up.
pub const MAX_ATTEMPTS: u32 = 3;
/// Pause between attempts, in milliseconds.
pub const RETRY_DELAY_MS: u64 = 500;
/// The endpoint used when none is configured.
pub const DEFAULT_BASE_URL: &'static str = "https://api.openai.com/v1/chat/completions";

/// `s` without trailing `/` characters.
pub open spec fn trim_end_slashes(s: Seq<char>) -> Seq<char>
    decreases s.len(),
{
    if s.len() > 0 && s.last() == '/' {
        trim_end_slashes(s.drop_last())
    } else {
        s
    }
}

pub open spec fn ends_with(s: Seq<char>, t: Seq<char>) -> bool {
    strip_suffix(s, t) is Some
}

/// The chat-completions endpoint for a configured base URL: the default for a blank
/// one; otherwise the URL without trailing slashes, completed with `/chat/completions`
/// or `/v1/chat/completions` as needed.
pub open spec fn endpoint(base: Seq<char>) -> Seq<char> {
    if trim(base).len() == 0 {
        DEFAULT_BASE_URL@
    } else {
        let url = trim_end_slashes(base);
        if ends_with(url, "/chat/completions"@) {
            url
        } else if ends_with(url, "/v1"@) {
            url + "/chat/completions"@
        } else {
            url + "/v1/chat/completions"@
        }
    }
}

fn ends_with_exec(s: &Vec<char>, t: &str) -> (r: bool)
    ensures
        r == ends_with(s@, t@),
{
    let tv = chars_of(t);
    if tv.len() > s.len() {
        return false;
    }
    let n = s.len();
    let base = n - tv.len();
    let mut i: usize = 0;
    while i < tv.len()
        invariant
            n == s@.len(),
            tv@ == t@,
            tv@.len() <= n,
            base == n - tv@.len(),
            i <= tv@.len(),
            forall|k: int| 0 <= k < i ==> s@[base + k] == tv@[k],
        decreases tv@.len() - i,
    {
        if s[base + i] != tv[i] {
            proof {
                assert(s@.subrange(base as int, n as int)[i as int] != tv@[i as int]);
            }
            return false;
        }
        i += 1;
    }
    assert(s@.subrange(base as int, n as int) =~= tv@);
    true
}

fn append(out: &mut Vec<char>, t: &str)
    ensures
        final(out)@ == old(out)@ + t@,
{
    let tv = chars_of(t);
    let mut i: usize = 0;
    while i < tv.len()
        invariant
            tv@ == t@,
            i <= tv@.len(),
            out@ == old(out)@ + tv@.subrange(0, i as int),
        decreases tv@.len() - i,
    {
        out.push(tv[i]);
        i += 1;
        assert(out@ =~= old(out)@ + tv@.subrange(0, i as int));
    }
    assert(tv@.subrange(0, tv@.len() as int) =~= tv@);
}

/// The chat-completions endpoint for the configured `base_url`.
pub fn chat_endpoint(base_url: &str) -> (r: String)
    ensures
        r@ == endpoint(base_url@),
{
    let cs = chars_of(base_url);
    let trimmed = crate::reply::trim_chars(&cs);
    if trimmed.len() == 0 {
        return DEFAULT_BASE_URL.to_owned();
    }
    let mut end: usize = cs.len();
    assert(cs@.subrange(0, cs@.len() as int) =~= cs@);
    while end > 0 && cs[end - 1] == '/'
        invariant
            end <= cs@.len(),
            trim_end_slashes(cs@.subrange(0, end as int)) == trim_end_slashes(cs@),
        decreases end,
    {
        proof {
            assert(cs@.subrange(0, end as int).drop_last() =~= cs@.subrange(0, end - 1));
        }
        end -= 1;
    }
    proof {
        assert(cs@.subrange(0, cs@.len() as int) =~= cs@);
    }
    let mut url = crate::reply::slice_chars(&cs, 0, end);
    assert(url@ == trim_end_slashes(cs@));
    if ends_with_exec(&url, "/chat/completions") {
    } else if ends_with_exec(&url, "/v1") {
        append(&mut url, "/chat/completions");
    } else {
        append(&mut url, "/v1/chat/completions");
    }
    text_of(&url)
}

/// What to do after an attempt at asking the proposer.
#[derive(Clone, Debug)]
pub enum ProposerStep {
    /// The proposer named an acceptable move.
    Done(Coord),
    /// Wait `RETRY_DELAY_MS` and ask again.
    Retry,
    /// Stop, with this error.
    GiveUp(String),
}

/// The decision after attempt number `attempt` (from 1) ended with `outcome`: an accepted
/// move ends the exchange; a failure is retried until `MAX_ATTEMPTS` attempts were made.
pub fn after_attempt(attempt: u32, outcome: Result<Coord, String>) -> (r: ProposerStep)
    requires
        1 <= attempt <= MAX_ATTEMPTS,
    ensures
        outcome matches Ok(c) ==> r == ProposerStep::Done(c),
        outcome is Err && attempt < MAX_ATTEMPTS ==> r is Retry,
        outcome is Err && attempt == MAX_ATTEMPTS ==> (r matches ProposerStep::GiveUp(m) && m@
            == "LLM failed after 3 attempts: "@ + outcome->Err_0@),
{
    match outcome {
        Ok(c) => ProposerStep::Done(c),
        Err(e) => if attempt < MAX_ATTEMPTS {
            ProposerStep::Retry
        } else {
            let mut out = chars_of("LLM failed after 3 attempts: ");
            append(&mut out, e.as_str());
            ProposerStep::GiveUp(text_of(&out))
        },
    }
}

/// A request to the proposer: its instructions, the position text and the labels of
/// the moves it may choose from.
pub struct Proposal {
    pub system: String,
    pub user: String,
    pub labels: Vec<String>,
}

/// Whether `labels` are the labels of `cs`, in order.
pub open spec fn labels_of(labels: Seq<String>, cs: Seq<Coord>) -> bool {
    labels.len() == cs.len() && forall|i: int| 0 <= i < cs.len() ==> (#[trigger] labels[i])@ == label_of(cs[i])
}

/// Prepares a request to the proposer: an error for a blank API key or when no move is
/// worth considering; otherwise the instructions, the position text and the labels of at
/// most `limit` candidate moves, best first.
pub fn prepare_proposal(board: &Board, player: Player, moves: &[Move], limit: usize, api_key: &str) -> (r:
    Result<Proposal, String>)
    requires
        board.wf(),
    ensures
        trim(api_key@).len() == 0 ==> (r matches Err(e) && e@ == "Missing API key for LLM profile"@),
        trim(api_key@).len() > 0 && (base_candidates(board@).len() == 0 || limit == 0) ==> (r matches Err(e) && e@
            == "No valid moves"@),
        r is Ok <==> (trim(api_key@).len() > 0 && base_candidates(board@).len() > 0 && limit > 0),
        r matches Ok(p) ==> {
            &&& p.system@ == SYSTEM_PROMPT@
            &&& exists|cs: Seq<Coord>|
                #[trigger] ranked_from(base_candidates(board@), limit as int, cs) && labels_of(p.labels@, cs)
                    && p.user@ == prompt_text(board@, player, moves@, p.labels@.map_values(|l: String| l@))
        },
{
    let key = chars_of(api_key);
    let trimmed = crate::reply::trim_chars(&key);
    if trimmed.len() == 0 {
        return Err("Missing API key for LLM profile".to_owned());
    }
    let candidates = candidate_moves_for_llm(board, player, limit);
    if candidates.len() == 0 {
        return Err("No valid moves".to_owned());
    }
    let mut labels: Vec<String> = Vec::new();
    let mut i: usize = 0;
    while i < candidates.len()
        invariant
            i <= candidates@.len(),
            labels_of(labels@, candidates@.subrange(0, i as int)),
        decreases candidates@.len() - i,
    {
        labels.push(coord_to_label(candidates[i]));
        i += 1;
    }
    assert(candidates@.subrange(0, candidates@.len() as int) =~= candidates@);
    let offered = labels.as_slice();
    assert(offered@ == labels@);
    let (system, user) = build_prompt(board, player, moves, offered);
    assert(user@ == prompt_text(board@, player, moves@, labels@.map_values(|l: String| l@)));
    assert(labels_of(labels@, candidates@) && ranked_from(base_candidates(board@), limit as int, candidates@)
        && user@ == prompt_text(board@, player, moves@, labels@.map_values(|l: String| l@)));
    Ok(Proposal { system, user, labels })
}

} // verus!
