//! Refusals of the recognition API: the status and the words of each.
use vstd::prelude::*;

verus! {

/// Why the API turns a request down.
#[derive(Debug, Clone, Copy, PartialEq, Eq, Structural)]
pub enum ApiError {
    /// The shared ingest secret is missing or wrong.
    Unauthorized,
    /// The per-address budget on session creation is used up.
    RateLimited,
    /// Too many recognition sessions are live.
    SessionLimit,
    /// Not a link at all.
    InvalidLink,
    /// A link, but not to a supported site.
    UnsupportedLink,
    /// A link without a track id.
    NoTrackId,
    /// The link field is longer than 2,048 bytes.
    LinkTooLong,
    /// The audio field is empty.
    EmptyAudio,
    /// The form, or one of its fields, could not be read.
    UnreadableForm,
    UnreadableToken,
    UnreadableLink,
    UnreadableAudio,
    /// No link was given.
    LinkMissing,
    /// No audio was given.
    AudioMissing,
    /// The server serves no writable catalog.
    NoCatalog,
    /// The ingest run neither added nor found a recording.
    NothingIngested,
}

/// The HTTP status of a refusal.
pub open spec fn status_of(e: ApiError) -> u16 {
    match e {
        ApiError::Unauthorized => 401,
        ApiError::RateLimited => 429,
        ApiError::SessionLimit => 429,
        ApiError::NoCatalog => 500,
        ApiError::NothingIngested => 500,
        _ => 400,
    }
}

/// The words of a refusal.
pub open spec fn message_of(e: ApiError) -> Seq<char> {
    match e {
        ApiError::Unauthorized =>
            "This server requires an ingest token. Present the server's --ingest-token secret as `Authorization: Bearer <token>` or a `token` form field."@,
        ApiError::RateLimited =>
            "Too many sessions started from this address. Wait a moment and try again."@,
        ApiError::SessionLimit =>
            "Server is at its concurrent-session limit (32); idle sessions expire within 120s."@,
        ApiError::InvalidLink => "Enter a valid YouTube Music link."@,
        ApiError::UnsupportedLink => "Use a YouTube Music track link (music.youtube.com)."@,
        ApiError::NoTrackId => "That link does not contain a YouTube track id."@,
        ApiError::LinkTooLong => "The YouTube Music link is too long."@,
        ApiError::EmptyAudio => "Choose a non-empty audio file."@,
        ApiError::UnreadableForm => "The upload form could not be read."@,
        ApiError::UnreadableToken => "The ingest token is invalid."@,
        ApiError::UnreadableLink => "The YouTube Music link is invalid."@,
        ApiError::UnreadableAudio => "The audio file could not be read."@,
        ApiError::LinkMissing => "Paste a YouTube Music link first."@,
        ApiError::AudioMissing => "Drop an audio file first."@,
        ApiError::NoCatalog => "This server has no writable catalog configured."@,
        ApiError::NothingIngested => "The fingerprint finished without creating a catalog record."@,
    }
}

impl ApiError {
    pub fn status(&self) -> (s: u16)
        ensures
            s == status_of(*self),
    {
        match self {
            ApiError::Unauthorized => 401,
            ApiError::RateLimited => 429,
            ApiError::SessionLimit => 429,
            ApiError::NoCatalog => 500,
            ApiError::NothingIngested => 500,
            _ => 400,
        }
    }

    pub fn message(&self) -> (m: &'static str)
        ensures
            m@ == message_of(*self),
    {
        match self {
            ApiError::Unauthorized =>
                "This server requires an ingest token. Present the server's --ingest-token secret as `Authorization: Bearer <token>` or a `token` form field.",
            ApiError::RateLimited =>
                "Too many sessions started from this address. Wait a moment and try again.",
            ApiError::SessionLimit =>
                "Server is at its concurrent-session limit (32); idle sessions expire within 120s.",
            ApiError::InvalidLink => "Enter a valid YouTube Music link.",
            ApiError::UnsupportedLink => "Use a YouTube Music track link (music.youtube.com).",
            ApiError::NoTrackId => "That link does not contain a YouTube track id.",
            ApiError::LinkTooLong => "The YouTube Music link is too long.",
            ApiError::EmptyAudio => "Choose a non-empty audio file.",
            ApiError::UnreadableForm => "The upload form could not be read.",
            ApiError::UnreadableToken => "The ingest token is invalid.",
            ApiError::UnreadableLink => "The YouTube Music link is invalid.",
            ApiError::UnreadableAudio => "The audio file could not be read.",
            ApiError::LinkMissing => "Paste a YouTube Music link first.",
            ApiError::AudioMissing => "Drop an audio file first.",
            ApiError::NoCatalog => "This server has no writable catalog configured.",
            ApiError::NothingIngested =>
                "The fingerprint finished without creating a catalog record.",
        }
    }
}

/// Which refusals have which status: one about the secret 401, those about a
/// limit 429, those on the server's side 500, and all others, about what was
/// sent, 400.
pub proof fn law_refusals_have_their_status(e: ApiError)
    ensures
        status_of(e) == 401 <==> e == ApiError::Unauthorized,
        status_of(e) == 429 <==> e == ApiError::RateLimited || e == ApiError::SessionLimit,
        status_of(e) == 500 <==> e == ApiError::NoCatalog || e == ApiError::NothingIngested,
        status_of(e) == 400 || status_of(e) == 401 || status_of(e) == 429 || status_of(e) == 500,
{
}

/// The words of the refusals.
pub proof fn law_refusals_in_words()
    ensures
        message_of(ApiError::Unauthorized)
            == "This server requires an ingest token. Present the server's --ingest-token secret as `Authorization: Bearer <token>` or a `token` form field."@,
        message_of(ApiError::RateLimited)
            == "Too many sessions started from this address. Wait a moment and try again."@,
        message_of(ApiError::SessionLimit)
            == "Server is at its concurrent-session limit (32); idle sessions expire within 120s."@,
        message_of(ApiError::InvalidLink) == "Enter a valid YouTube Music link."@,
        message_of(ApiError::UnsupportedLink)
            == "Use a YouTube Music track link (music.youtube.com)."@,
        message_of(ApiError::NoTrackId) == "That link does not contain a YouTube track id."@,
        message_of(ApiError::LinkTooLong) == "The YouTube Music link is too long."@,
        message_of(ApiError::EmptyAudio) == "Choose a non-empty audio file."@,
        message_of(ApiError::UnreadableForm) == "The upload form could not be read."@,
        message_of(ApiError::UnreadableToken) == "The ingest token is invalid."@,
        message_of(ApiError::UnreadableLink) == "The YouTube Music link is invalid."@,
        message_of(ApiError::UnreadableAudio) == "The audio file could not be read."@,
        message_of(ApiError::LinkMissing) == "Paste a YouTube Music link first."@,
        message_of(ApiError::AudioMissing) == "Drop an audio file first."@,
        message_of(ApiError::NoCatalog) == "This server has no writable catalog configured."@,
        message_of(ApiError::NothingIngested)
            == "The fingerprint finished without creating a catalog record."@,
{
}

} // verus!
