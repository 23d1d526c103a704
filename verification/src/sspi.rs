//! The course of an SSPI handshake: what each answer of the native provider means.

use vstd::prelude::*;
use vstd::string::*;

use crate::auth::AuthError;
use crate::number::push_hexadecimal;

verus! {

/// The context is complete, and so is the token.
pub const SEC_E_OK: i32 = 0;

/// The context needs another challenge.
pub const SEC_I_CONTINUE_NEEDED: i32 = 0x90312;

/// The context is complete once `CompleteAuthToken` has been called.
pub const SEC_I_COMPLETE_NEEDED: i32 = 0x90313;

/// The context needs another challenge once `CompleteAuthToken` has been called.
pub const SEC_I_COMPLETE_AND_CONTINUE: i32 = 0x90314;

/// Whether a status means that the provider has taken the challenge.
pub open spec fn accepted(status: i32) -> bool {
    status == SEC_E_OK || status == SEC_I_CONTINUE_NEEDED || status == SEC_I_COMPLETE_NEEDED
        || status == SEC_I_COMPLETE_AND_CONTINUE
}

/// Whether a status asks for a call of `CompleteAuthToken`.
pub open spec fn asks_for_completion(status: i32) -> bool {
    status == SEC_I_COMPLETE_NEEDED || status == SEC_I_COMPLETE_AND_CONTINUE
}

/// Whether a status means that no other challenge is expected.
pub open spec fn ends_handshake(status: i32) -> bool {
    status == SEC_E_OK || status == SEC_I_COMPLETE_NEEDED
}

/// The bits of a status, as a number without a sign.
pub open spec fn unsigned_status(status: i32) -> nat {
    if status < 0 {
        (status + 0x100000000) as nat
    } else {
        status as nat
    }
}

/// The text that reports a status which is not accepted.
pub open spec fn status_text(status: i32) -> Seq<char> {
    "InitializeSecurityContextW returned 0x"@ + crate::number::hexadecimal(
        unsigned_status(status),
        8,
    )
}

/// Writes the text that reports a status which is not accepted.
fn describe_status(status: i32) -> (text: String)
    ensures
        text@ == status_text(status),
{
    let mut text = "InitializeSecurityContextW returned 0x".to_owned();
    assert(status < 0 ==> (status as u32) == status + 0x100000000) by (bit_vector);
    push_hexadecimal(&mut text, #[verifier::truncate]
    (status as u32));
    text
}

/// How far the handshake of a security context has come.
#[derive(Clone, Copy, Debug, PartialEq, Eq, Structural)]
pub struct SspiProgress {
    /// The native context exists.
    pub has_context: bool,
    /// The handshake is over.
    pub complete: bool,
}

/// What the status of `InitializeSecurityContextW` makes of the handshake.
pub open spec fn after_initialize(progress: SspiProgress, status: i32) -> SspiProgress {
    SspiProgress { has_context: progress.has_context || accepted(status), ..progress }
}

/// What the end of a step makes of the handshake.
pub open spec fn after_step(progress: SspiProgress, status: i32, succeeded: bool) -> SspiProgress {
    SspiProgress {
        complete: if succeeded {
            ends_handshake(status)
        } else {
            progress.complete
        },
        ..progress
    }
}

/// What is checked before a step: that the handshake is not over, and that the length of the
/// challenge fits into 32 bits.
pub open spec fn step_begun(progress: SspiProgress, challenge_length: Option<usize>) -> Result<
    Option<u32>,
    AuthError,
> {
    if progress.complete {
        Err(AuthError::ContextComplete)
    } else {
        match challenge_length {
            None => Ok(None),
            Some(n) => if n > u32::MAX {
                Err(AuthError::TokenTooLarge)
            } else {
                Ok(Some(n as u32))
            },
        }
    }
}

/// What comes of a step, in the order in which it counts: an error on freeing the token, one
/// on completing it, a status that is not accepted, or the token.
pub open spec fn step_outcome(
    status: i32,
    token: Seq<u8>,
    free_error: Option<Seq<char>>,
    completion_error: Option<Seq<char>>,
) -> Result<Seq<u8>, Seq<char>> {
    if free_error is Some {
        Err(free_error->0)
    } else if completion_error is Some {
        Err(completion_error->0)
    } else if !accepted(status) {
        Err(status_text(status))
    } else {
        Ok(token)
    }
}

impl SspiProgress {
    /// A handshake that has not begun.
    pub fn new() -> (progress: Self)
        ensures
            progress == (SspiProgress { has_context: false, complete: false }),
    {
        SspiProgress { has_context: false, complete: false }
    }

    /// Checks that there may be another step with a challenge of this length, and converts the
    /// length.
    ///
    /// # Errors
    ///
    /// Returns [`AuthError::ContextComplete`] if the handshake is over, and
    /// [`AuthError::TokenTooLarge`] if the length of the challenge needs more than 32 bits.
    pub fn begin_step(&self, challenge_length: Option<usize>) -> (length: Result<
        Option<u32>,
        AuthError,
    >)
        ensures
            length == step_begun(*self, challenge_length),
    {
        if self.complete {
            return Err(AuthError::ContextComplete);
        }
        match challenge_length {
            None => Ok(None),
            Some(n) => if n > u32::MAX as usize {
                Err(AuthError::TokenTooLarge)
            } else {
                Ok(Some(n as u32))
            },
        }
    }

    /// Takes in the status of `InitializeSecurityContextW`, and tells whether `CompleteAuthToken`
    /// is to be called.
    pub fn initialized(&mut self, status: i32) -> (must_complete: bool)
        ensures
            must_complete == asks_for_completion(status),
            *final(self) == after_initialize(*old(self), status),
    {
        if status == SEC_E_OK || status == SEC_I_CONTINUE_NEEDED || status == SEC_I_COMPLETE_NEEDED
            || status == SEC_I_COMPLETE_AND_CONTINUE {
            self.has_context = true;
        }
        status == SEC_I_COMPLETE_NEEDED || status == SEC_I_COMPLETE_AND_CONTINUE
    }

    /// Ends a step with what the calls of the native provider have returned.
    ///
    /// # Errors
    ///
    /// Returns [`AuthError::Native`] with the first error there was.
    pub fn finish_step(
        &mut self,
        status: i32,
        token: Vec<u8>,
        free_error: Option<String>,
        completion_error: Option<String>,
    ) -> (outcome: Result<Vec<u8>, AuthError>)
        ensures
            ({
                let expected = step_outcome(
                    status,
                    token@,
                    crate::http1::optional_text(free_error),
                    crate::http1::optional_text(completion_error),
                );
                &&& match outcome {
                    Ok(t) => expected == Ok::<Seq<u8>, Seq<char>>(t@),
                    Err(AuthError::Native(text)) => expected == Err::<Seq<u8>, Seq<char>>(text@),
                    Err(_) => false,
                }
                &&& *final(self) == after_step(*old(self), status, outcome is Ok)
            }),
    {
        if let Some(error) = free_error {
            return Err(AuthError::Native(error));
        }
        if let Some(error) = completion_error {
            return Err(AuthError::Native(error));
        }
        if !(status == SEC_E_OK || status == SEC_I_CONTINUE_NEEDED || status
            == SEC_I_COMPLETE_NEEDED || status == SEC_I_COMPLETE_AND_CONTINUE) {
            return Err(AuthError::Native(describe_status(status)));
        }
        self.complete = status == SEC_E_OK || status == SEC_I_COMPLETE_NEEDED;
        Ok(token)
    }
}

/// A call for a step: with a challenge of this length, and, if it was not refused at once, what the
/// calls of the native provider returned.
pub struct StepRecord {
    pub challenge_length: Option<usize>,
    pub status: i32,
    pub token: Seq<u8>,
    pub free_error: Option<Seq<char>>,
    pub completion_error: Option<Seq<char>>,
}

impl StepRecord {
    /// Whether the step succeeds if it is not refused at once.
    pub open spec fn succeeds(self) -> bool {
        step_outcome(self.status, self.token, self.free_error, self.completion_error) is Ok
    }

    /// What the call makes of the handshake: nothing if it is refused at once.
    pub open spec fn applied(self, progress: SspiProgress) -> SspiProgress {
        if step_begun(progress, self.challenge_length) is Ok {
            after_step(after_initialize(progress, self.status), self.status, self.succeeds())
        } else {
            progress
        }
    }
}

/// How far the handshake has come after these calls.
pub open spec fn progress_after(calls: Seq<StepRecord>) -> SspiProgress
    decreases calls.len(),
{
    if calls.len() == 0 {
        SspiProgress { has_context: false, complete: false }
    } else {
        calls.last().applied(progress_after(calls.drop_last()))
    }
}

/// Whether call `i` was a step that succeeded, with a status that ends the handshake.
pub open spec fn completes(calls: Seq<StepRecord>, i: int) -> bool {
    &&& 0 <= i < calls.len()
    &&& step_begun(progress_after(calls.take(i)), calls[i].challenge_length) is Ok
    &&& calls[i].succeeds()
    &&& ends_handshake(calls[i].status)
}

/// A step is refused because the handshake is over exactly if an earlier one succeeded with a
/// status that ends the handshake, whatever else there was before. Steps that succeed with another
/// status, steps that fail and calls that are refused leave the handshake open.
pub proof fn law_completed_handshake_is_over(
    calls: Seq<StepRecord>,
    challenge_length: Option<usize>,
)
    ensures
        step_begun(progress_after(calls), challenge_length) == Err::<Option<u32>, AuthError>(
            AuthError::ContextComplete,
        ) <==> exists|i: int| completes(calls, i),
        progress_after(calls).complete <==> exists|i: int| completes(calls, i),
    decreases calls.len(),
{
    if calls.len() > 0 {
        let before = calls.drop_last();
        let n = before.len() as int;
        law_completed_handshake_is_over(before, calls.last().challenge_length);
        assert(calls.take(n) == before);
        assert forall|i: int| 0 <= i < n implies completes(calls, i) == completes(before, i) by {
            assert(calls.take(i) == before.take(i));
        }
        if progress_after(before).complete {
            let i = choose|i: int| completes(before, i);
            assert(completes(calls, i));
        } else {
            assert(progress_after(calls).complete <==> completes(calls, n));
            if exists|i: int| completes(calls, i) {
                let i = choose|i: int| completes(calls, i);
                assert(i == n || completes(before, i));
            }
        }
    }
}

/// A step that has succeeded leaves a context, whatever there was before.
pub proof fn law_success_leaves_a_context(calls: Seq<StepRecord>, i: int)
    requires
        0 <= i < calls.len(),
        step_begun(progress_after(calls.take(i)), calls[i].challenge_length) is Ok,
        calls[i].succeeds(),
    ensures
        progress_after(calls).has_context,
    decreases calls.len(),
{
    let n = calls.len() - 1;
    if i < n {
        assert(calls.drop_last().take(i) == calls.take(i));
        law_success_leaves_a_context(calls.drop_last(), i);
    } else {
        assert(calls.take(i) == calls.drop_last());
    }
}

/// A context that exists is never forgotten, whatever comes of a step.
pub proof fn law_context_is_kept(progress: SspiProgress, status: i32, succeeded: bool)
    requires
        progress.has_context,
    ensures
        after_step(after_initialize(progress, status), status, succeeded).has_context,
{
}

/// The UTF-16 units of a character.
pub open spec fn utf16_units(c: char) -> Seq<u16> {
    let code = c as int;
    if code < 0x10000 {
        seq![code as u16]
    } else {
        seq![
            (0xd800 + (code - 0x10000) / 0x400) as u16,
            (0xdc00 + (code - 0x10000) % 0x400) as u16,
        ]
    }
}

/// The UTF-16 units of a text.
pub open spec fn utf16(s: Seq<char>) -> Seq<u16>
    decreases s.len(),
{
    if s.len() == 0 {
        seq![]
    } else {
        utf16(s.drop_last()) + utf16_units(s.last())
    }
}

/// Appends the UTF-16 units of a character.
fn push_units(units: &mut Vec<u16>, c: char)
    ensures
        final(units)@ == old(units)@ + utf16_units(c),
{
    let code: u32 = c as u32;
    if code < 0x10000 {
        units.push(code as u16);
    } else {
        let rest: u32 = code - 0x10000;
        units.push((0xd800 + rest / 0x400) as u16);
        units.push((0xdc00 + rest % 0x400) as u16);
    }
    assert(units@ == old(units)@ + utf16_units(c));
}

/// Encodes a target name for the native provider: in UTF-16, with a zero at the end.
pub fn encode_target_name(name: &str) -> (units: Vec<u16>)
    ensures
        units@ == utf16(name@).push(0),
{
    let chars = crate::text::characters(name);
    let mut units: Vec<u16> = Vec::new();
    assert(chars@.take(0) == Seq::<char>::empty());
    assert(units@ == utf16(chars@.take(0)));
    for i in 0..chars.len()
        invariant
            units@ == utf16(chars@.take(i as int)),
    {
        assert(chars@.take(i + 1).drop_last() == chars@.take(i as int));
        assert(chars@.take(i + 1).last() == chars@[i as int]);
        push_units(&mut units, chars[i]);
    }
    assert(chars@.take(chars@.len() as int) == chars@);
    units.push(0);
    units
}

/// A step is refused exactly if the handshake is over or the length of its challenge needs more
/// than 32 bits; else the length is kept.
pub proof fn law_steps_begin(
    fresh: SspiProgress,
    progress: &SspiProgress,
    challenge_length: Option<usize>,
    length: Result<Option<u32>, AuthError>,
)
    requires
        call_ensures(SspiProgress::new, (), fresh),
        call_ensures(SspiProgress::begin_step, (progress, challenge_length), length),
    ensures
        !fresh.has_context && !fresh.complete,
        length == step_begun(*progress, challenge_length),
        match challenge_length {
            _ if progress.complete => length == Err::<Option<u32>, AuthError>(
                AuthError::ContextComplete,
            ),
            None => length == Ok::<Option<u32>, AuthError>(None),
            Some(n) => if n <= 0xffff_ffff {
                length matches Ok(Some(m)) && m == n
            } else {
                length == Err::<Option<u32>, AuthError>(AuthError::TokenTooLarge)
            },
        },
{
}

/// A context is there after each of the four statuses by which the provider takes a challenge, and
/// two of them ask for the token to be completed.
pub proof fn law_statuses_of_a_call(progress: &mut SspiProgress, status: i32, must_complete: bool)
    requires
        call_ensures(SspiProgress::initialized, (progress, status), must_complete),
    ensures
        final(progress).has_context == (old(progress).has_context || status == 0 || status
            == 0x90312 || status == 0x90313 || status == 0x90314),
        final(progress).complete == old(progress).complete,
        must_complete == (status == 0x90313 || status == 0x90314),
{
}

/// A step gives the token of the provider exactly if nothing failed and the status is one of the
/// four, and then the handshake is over exactly with two of them. Else it gives the first error, in
/// the order of freeing, completing and the status, and leaves everything as it was.
pub proof fn law_outcome_of_a_step(
    progress: &mut SspiProgress,
    status: i32,
    token: Vec<u8>,
    free_error: Option<String>,
    completion_error: Option<String>,
    outcome: Result<Vec<u8>, AuthError>,
)
    requires
        call_ensures(
            SspiProgress::finish_step,
            (progress, status, token, free_error, completion_error),
            outcome,
        ),
    ensures
        final(progress).has_context == old(progress).has_context,
        match (free_error, completion_error) {
            (Some(error), _) => (outcome matches Err(AuthError::Native(text)) && text@ == error@)
                && final(progress).complete == old(progress).complete,
            (None, Some(error)) => (outcome matches Err(AuthError::Native(text)) && text@
                == error@) && final(progress).complete == old(progress).complete,
            (None, None) => if status == 0 || status == 0x90312 || status == 0x90313 || status
                == 0x90314 {
                &&& outcome matches Ok(t) && t@ == token@
                &&& final(progress).complete == (status == 0 || status == 0x90313)
            } else {
                &&& outcome matches Err(AuthError::Native(text)) && text@
                    == "InitializeSecurityContextW returned 0x"@ + crate::number::hexadecimal(
                    if status < 0 {
                        (status + 0x1_0000_0000) as nat
                    } else {
                        status as nat
                    },
                    8,
                )
                &&& final(progress).complete == old(progress).complete
            },
        },
{
}

/// A character below 0x10000 is encoded as itself. Any other is encoded as a high and a low
/// surrogate, which hold ten bits each of what it is above 0x10000. Texts in a row are encoded in a
/// row.
pub proof fn law_utf16_is_reversible(c: char, a: Seq<char>, b: Seq<char>)
    ensures
        ({
            let units = utf16(seq![c]);
            if (c as int) < 0x10000 {
                units.len() == 1 && units[0] == c as int
            } else {
                &&& units.len() == 2
                &&& 0xd800 <= units[0] <= 0xdbff
                &&& 0xdc00 <= units[1] <= 0xdfff
                &&& (units[0] - 0xd800) * 1024 + (units[1] - 0xdc00) + 0x10000 == c as int
            }
        }),
        utf16(a + b) == utf16(a) + utf16(b),
        utf16(Seq::empty()) == Seq::<u16>::empty(),
    decreases b.len(),
{
    reveal_with_fuel(utf16, 2);
    assert(seq![c].drop_last() == Seq::<char>::empty());
    assert(utf16(seq![c]) == utf16_units(c));
    vstd::utf8::char_is_scalar(c);
    if b.len() == 0 {
        assert(a + b == a);
        assert(utf16(a) + utf16(b) == utf16(a));
    } else {
        law_utf16_is_reversible(c, a, b.drop_last());
        assert((a + b).drop_last() == a + b.drop_last());
        assert(utf16(a + b) == utf16(a) + utf16(b));
    }
}

/// A target name is encoded whole, with one zero behind it.
pub proof fn law_target_name_is_encoded(name: &str, units: Vec<u16>)
    requires
        call_ensures(encode_target_name, (name,), units),
    ensures
        units@.len() == utf16(name@).len() + 1,
        units@.last() == 0,
        units@.drop_last() == utf16(name@),
{
    assert(utf16(name@).push(0).drop_last() == utf16(name@));
}

} // verus!
