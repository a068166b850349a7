//! The collaborative mode: the models answer, review each other's answers,
//! and agree on one answer; the prompts of each phase can be edited.

use vstd::prelude::*;

verus! {

/// The three prompts of the collaborative mode.
#[derive(Clone, Copy, Debug, PartialEq, Eq, Structural)]
pub enum PromptType {
    Initial,
    Review,
    Consensus,
}

impl PromptType {
    pub fn name(&self) -> (r: &'static str)
        ensures
            r@ == (match *self {
                PromptType::Initial => "Initial Response"@,
                PromptType::Review => "Review Feedback"@,
                PromptType::Consensus => "Consensus Synthesis"@,
            }),
    {
        match self {
            PromptType::Initial => "Initial Response",
            PromptType::Review => "Review Feedback",
            PromptType::Consensus => "Consensus Synthesis",
        }
    }

    pub fn description(&self) -> (r: &'static str)
        ensures
            r@ == (match *self {
                PromptType::Initial => "Prompt sent to each model for their initial response"@,
                PromptType::Review => "Prompt sent to models to review other responses"@,
                PromptType::Consensus => "Prompt sent to synthesize final collaborative answer"@,
            }),
    {
        match self {
            PromptType::Initial => "Prompt sent to each model for their initial response",
            PromptType::Review => "Prompt sent to models to review other responses",
            PromptType::Consensus => "Prompt sent to synthesize final collaborative answer",
        }
    }

    /// The placeholders that the prompt may hold.
    pub fn variables(&self) -> (r: &'static str)
        ensures
            r@ == (match *self {
                PromptType::Initial => "{user_question}"@,
                PromptType::Review => "{user_question}, {other_responses}"@,
                PromptType::Consensus => "{user_question}, {initial_responses}, {reviews}"@,
            }),
    {
        match self {
            PromptType::Initial => "{user_question}",
            PromptType::Review => "{user_question}, {other_responses}",
            PromptType::Consensus => "{user_question}, {initial_responses}, {reviews}",
        }
    }
}

/// The prompts of the collaborative mode.
#[derive(Clone, Debug, PartialEq)]
pub struct CollaborativePromptTemplates {
    pub initial_response: String,
    pub cross_review: String,
    pub consensus: String,
}

/// The prompt of a type, in templates given by their three texts.
pub open spec fn prompt_of(t: CollaborativePromptTemplates, prompt_type: PromptType) -> Seq<char> {
    match prompt_type {
        PromptType::Initial => t.initial_response@,
        PromptType::Review => t.cross_review@,
        PromptType::Consensus => t.consensus@,
    }
}

impl Default for CollaborativePromptTemplates {
    /// The prompts the collaborative mode starts with.
    fn default() -> (t: Self)
        ensures
            t.initial_response@ == "You are part of a collaborative AI team working together to answer questions. Provide your best answer to this question:\n\n{user_question}"@,
            t.cross_review@ == "Review the following responses from other AI models. Provide constructive feedback on their strengths and areas for improvement.\n\nUser Question: {user_question}\n\nOther responses:\n{other_responses}\n\nProvide your analysis:"@,
            t.consensus@ == "Based on all the initial responses and reviews below, synthesize a final collaborative answer that combines the best insights from all models.\n\nUser Question: {user_question}\n\nInitial Responses:\n{initial_responses}\n\nReviews:\n{reviews}\n\nSynthesize the best collaborative answer:"@,
    {
        CollaborativePromptTemplates {
            initial_response: "You are part of a collaborative AI team working together to answer questions. Provide your best answer to this question:\n\n{user_question}".to_owned(),
            cross_review: "Review the following responses from other AI models. Provide constructive feedback on their strengths and areas for improvement.\n\nUser Question: {user_question}\n\nOther responses:\n{other_responses}\n\nProvide your analysis:".to_owned(),
            consensus: "Based on all the initial responses and reviews below, synthesize a final collaborative answer that combines the best insights from all models.\n\nUser Question: {user_question}\n\nInitial Responses:\n{initial_responses}\n\nReviews:\n{reviews}\n\nSynthesize the best collaborative answer:".to_owned(),
        }
    }
}

impl CollaborativePromptTemplates {
    /// The prompt of the given type.
    pub fn get(&self, prompt_type: PromptType) -> (r: String)
        ensures
            r@ == prompt_of(*self, prompt_type),
    {
        match prompt_type {
            PromptType::Initial => self.initial_response.clone(),
            PromptType::Review => self.cross_review.clone(),
            PromptType::Consensus => self.consensus.clone(),
        }
    }

    /// Replaces the prompt of the given type; the others are kept.
    pub fn set(&mut self, prompt_type: PromptType, value: String)
        ensures
            forall|q: PromptType| #[trigger] prompt_of(*final(self), q) == if q == prompt_type {
                value@
            } else {
                prompt_of(*old(self), q)
            },
    {
        match prompt_type {
            PromptType::Initial => self.initial_response = value,
            PromptType::Review => self.cross_review = value,
            PromptType::Consensus => self.consensus = value,
        }
    }
}

/// The phases of a collaborative round.
#[derive(Clone, Copy, Debug, PartialEq, Eq, Structural)]
pub enum CollaborativePhase {
    Initial,
    Review,
    Consensus,
    Complete,
}

impl CollaborativePhase {
    pub fn name(&self) -> (r: &'static str)
        ensures
            r@ == (match *self {
                CollaborativePhase::Initial => "Phase 1: Initial Responses"@,
                CollaborativePhase::Review => "Phase 2: Cross-Review"@,
                CollaborativePhase::Consensus => "Phase 3: Consensus"@,
                CollaborativePhase::Complete => "Complete"@,
            }),
    {
        match self {
            CollaborativePhase::Initial => "Phase 1: Initial Responses",
            CollaborativePhase::Review => "Phase 2: Cross-Review",
            CollaborativePhase::Consensus => "Phase 3: Consensus",
            CollaborativePhase::Complete => "Complete",
        }
    }

    /// The CSS class of the phase's badge.
    pub fn badge_color(&self) -> (r: &'static str)
        ensures
            r@ == (match *self {
                CollaborativePhase::Initial => "bg-blue-500"@,
                CollaborativePhase::Review => "bg-purple-500"@,
                CollaborativePhase::Consensus => "bg-green-500"@,
                CollaborativePhase::Complete => "bg-gray-500"@,
            }),
    {
        match self {
            CollaborativePhase::Initial => "bg-blue-500",
            CollaborativePhase::Review => "bg-purple-500",
            CollaborativePhase::Consensus => "bg-green-500",
            CollaborativePhase::Complete => "bg-gray-500",
        }
    }
}

} // verus!
