//! The child's command line and what its termination means for this process.
//!
//! A launch template is one string. It is cut at every single space, with no
//! quoting, so an argument cannot hold a space and two spaces in a row give an
//! empty argument. The first token is the program, the rest are its arguments,
//! and the placeholder is replaced by the descriptor value in every token.

use crate::text::{
    decimal, decimal_string, free_of, lemma_decimal_digits, lemma_replaced_absent,
    lemma_replaced_within, lemma_split_join, replace_all, replaced, split, split_on,
};
use vstd::prelude::*;

verus! {

/// The exit code of a run in which every stage succeeded and no child code
/// took its place.
pub const EXIT_SUCCESS: i32 = 0;

/// The exit code of every failure of the bridge itself, and of a child that a
/// signal ended.
pub const EXIT_FAILURE: i32 = -1;

/// The text that stands for the descriptor value in a template.
pub open spec fn placeholder() -> Seq<char> {
    seq!['{', 'f', 'd', '}']
}

/// How the child ended.
#[derive(Clone, Copy, Debug, PartialEq, Eq, Structural)]
pub enum ExitOutcome {
    /// The child returned this code.
    ExitedWithCode(i32),
    /// A signal ended the child: there is no code to relay.
    TerminatedBySignal,
}

impl ExitOutcome {
    /// The code this process exits with: the child's own, or the failure code.
    pub open spec fn code(self) -> i32 {
        match self {
            ExitOutcome::ExitedWithCode(code) => code,
            ExitOutcome::TerminatedBySignal => EXIT_FAILURE,
        }
    }

    /// The code this process exits with after the child ended in this way.
    pub fn exit_code(&self) -> (code: i32)
        ensures
            code == self.code(),
    {
        match self {
            ExitOutcome::ExitedWithCode(code) => *code,
            ExitOutcome::TerminatedBySignal => EXIT_FAILURE,
        }
    }
}

/// One token of a template with the descriptor value put in.
pub open spec fn token_with_descriptor(token: Seq<char>, descriptor: nat) -> Seq<char> {
    replaced(token, placeholder(), decimal(descriptor))
}

/// The tokens of a template with the descriptor value put in.
pub open spec fn launch_tokens(template: Seq<char>, descriptor: nat) -> Seq<Seq<char>> {
    split_on(template, ' ').map_values(|token: Seq<char>| token_with_descriptor(token, descriptor))
}

/// A template always names a program, the descriptor value never changes the
/// number of tokens, and no token holds a space.
pub proof fn lemma_launch_tokens(template: Seq<char>, descriptor: nat)
    ensures
        launch_tokens(template, descriptor).len() >= 1,
        launch_tokens(template, descriptor).len() == split_on(template, ' ').len(),
        free_of(launch_tokens(template, descriptor), ' '),
{
    let pieces = split_on(template, ' ');
    let tokens = launch_tokens(template, descriptor);
    let spaceless = |c: char| c != ' ';
    lemma_split_join(template, ' ');
    lemma_decimal_digits(descriptor);
    assert forall|i: int, j: int| 0 <= i < tokens.len() && 0 <= j < tokens[i].len() implies 
        #[trigger] tokens[i][j] != ' ' by {
        assert forall|k: int| 0 <= k < pieces[i].len() implies spaceless(#[trigger] pieces[i][k]) by {
            assert(pieces[i][k] != ' ');
        }
        assert forall|k: int| 0 <= k < decimal(descriptor).len() implies spaceless(
            #[trigger] decimal(descriptor)[k],
        ) by {
            assert('0' <= decimal(descriptor)[k] <= '9');
        }
        lemma_replaced_within(pieces[i], placeholder(), decimal(descriptor), spaceless);
        assert(spaceless(tokens[i][j]));
    }
}

/// A token without the placeholder is passed on as it is, whatever the
/// descriptor value.
pub proof fn lemma_token_without_placeholder(token: Seq<char>, descriptor: nat)
    requires
        forall|i: int| 0 <= i && i + 4 <= token.len() ==> #[trigger] token.subrange(i, i + 4)
            != placeholder(),
    ensures
        token_with_descriptor(token, descriptor) == token,
{
    lemma_replaced_absent(token, placeholder(), decimal(descriptor));
}

/// Replaces the placeholder in one token by the decimal descriptor value.
pub fn substitute_descriptor(token: &str, descriptor: u64) -> (out: String)
    ensures
        out@ == token_with_descriptor(token@, descriptor as nat),
{
    let digits = decimal_string(descriptor);
    proof {
        reveal_strlit("{fd}");
        assert("{fd}"@ =~= placeholder());
    }
    replace_all(token, "{fd}", digits.as_str())
}

/// The argument list of the child, program first, for this template and
/// descriptor value.
pub fn launch_arguments(template: &str, descriptor: u64) -> (tokens: Vec<String>)
    ensures
        tokens.deep_view() == launch_tokens(template@, descriptor as nat),
{
    let pieces = split(template, ' ');
    let mut tokens: Vec<String> = Vec::new();
    let mut i: usize = 0;
    while i < pieces.len()
        invariant
            i <= pieces.len(),
            pieces.deep_view() == split_on(template@, ' '),
            tokens.len() == i,
            forall|j: int|
                0 <= j < i ==> #[trigger] tokens[j]@ == token_with_descriptor(
                    pieces[j]@,
                    descriptor as nat,
                ),
        decreases pieces.len() - i,
    {
        let token = substitute_descriptor(pieces[i].as_str(), descriptor);
        tokens.push(token);
        i += 1;
    }
    proof {
        let wanted = launch_tokens(template@, descriptor as nat);
        assert(tokens.deep_view().len() == wanted.len());
        assert forall|j: int| 0 <= j < wanted.len() implies tokens.deep_view()[j] == wanted[j] by {
            assert(pieces.deep_view()[j] == pieces[j]@);
        }
        assert(tokens.deep_view() =~= wanted);
    }
    tokens
}

} // verus!
