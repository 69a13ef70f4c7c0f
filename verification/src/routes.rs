//! What the HTTP routes decide from plain values: the token a request
//! presents, the client id a writer action names, and the status code of
//! a refused git route.
use vstd::prelude::*;
use crate::protocol::GitErrorKind;
use crate::text::{chars_between, chars_of, chars_start_with, parse_unsigned, same_text, starts_with, string_of, unsigned_value};

verus! {

/// The token a request presents: the `token` query parameter, else an
/// `Authorization: Bearer <token>` header, else an `X-Cicada-Token`
/// header.
pub open spec fn presented(
    query: Option<Seq<char>>,
    authorization: Option<Seq<char>>,
    token_header: Option<Seq<char>>,
) -> Option<Seq<char>> {
    match query {
        Some(t) => Some(t),
        None => match authorization {
            Some(a) if starts_with(a, "Bearer "@) => Some(a.skip("Bearer "@.len() as int)),
            _ => token_header,
        },
    }
}

/// An optional text's plain value.
pub open spec fn opt_text(t: Option<&str>) -> Option<Seq<char>> {
    match t {
        Some(s) => Some(s@),
        None => None,
    }
}

/// The token a request presents (the header values as text, when they
/// are text).
pub fn presented_token(
    query: Option<&str>,
    authorization: Option<&str>,
    token_header: Option<&str>,
) -> (token: Option<String>)
    ensures
        match token {
            Some(t) => presented(opt_text(query), opt_text(authorization), opt_text(token_header))
                == Some(t@),
            None => presented(opt_text(query), opt_text(authorization), opt_text(token_header)) is None,
        },
{
    if let Some(t) = query {
        return Some(t.to_owned());
    }
    if let Some(a) = authorization {
        let chars = chars_of(a);
        let bearer = chars_of("Bearer ");
        if chars_start_with(chars.as_slice(), bearer.as_slice()) {
            let rest = chars_between(chars.as_slice(), bearer.len(), chars.len());
            assert(rest@ =~= a@.skip("Bearer "@.len() as int));
            return Some(string_of(rest.as_slice()));
        }
    }
    match token_header {
        Some(t) => Some(t.to_owned()),
        None => None,
    }
}

/// Does a request get through the token gate: it presents exactly the
/// server's token.
pub fn token_accepted(
    token: &str,
    query: Option<&str>,
    authorization: Option<&str>,
    token_header: Option<&str>,
) -> (accepted: bool)
    ensures
        accepted == (presented(opt_text(query), opt_text(authorization), opt_text(token_header)) == Some(
            token@,
        )),
{
    match presented_token(query, authorization, token_header) {
        Some(t) => same_text(t.as_str(), token),
        None => false,
    }
}

/// The client id a writer action names: the body's, else the
/// `X-Cicada-Client` header read as a `u32`.
pub fn writer_client(body_client: Option<u32>, header: Option<&str>) -> (client: Option<u32>)
    ensures
        client == match body_client {
            Some(c) => Some(c),
            None => match header {
                Some(h) => match unsigned_value(h@, u32::MAX as nat) {
                    Some(v) => Some(v as u32),
                    None => None,
                },
                None => None,
            },
        },
{
    if let Some(c) = body_client {
        return Some(c);
    }
    match header {
        Some(h) => {
            let chars = chars_of(h);
            match parse_unsigned(chars.as_slice(), 0xffff_ffff) {
                Some(v) => Some(v as u32),
                None => None,
            }
        },
        None => None,
    }
}

/// The HTTP status of a refused git route — one per kind.
pub open spec fn git_http_status(kind: GitErrorKind) -> u16 {
    match kind {
        GitErrorKind::Protocol => 400,
        GitErrorKind::NoSuchPipeline => 404,
        GitErrorKind::Lease => 403,
        GitErrorKind::NotARepo => 409,
        GitErrorKind::GitNotFound => 409,
        GitErrorKind::NothingToCommit => 409,
        GitErrorKind::NothingToRevert => 409,
        GitErrorKind::Untracked => 409,
        GitErrorKind::Ignored => 409,
        GitErrorKind::OperationInProgress => 409,
        GitErrorKind::EmptyMessage => 422,
        GitErrorKind::PathNotAllowed => 422,
        GitErrorKind::Locked => 423,
        GitErrorKind::GitFailed => 500,
        GitErrorKind::GitTimeout => 500,
        GitErrorKind::IoError => 500,
        GitErrorKind::ReloadFailed => 500,
        GitErrorKind::Internal => 500,
    }
}

/// The HTTP status of a refused git route.
pub fn git_status_code(kind: GitErrorKind) -> (status: u16)
    ensures
        status == git_http_status(kind),
{
    match kind {
        GitErrorKind::Protocol => 400,
        GitErrorKind::NoSuchPipeline => 404,
        GitErrorKind::Lease => 403,
        GitErrorKind::NotARepo => 409,
        GitErrorKind::GitNotFound => 409,
        GitErrorKind::NothingToCommit => 409,
        GitErrorKind::NothingToRevert => 409,
        GitErrorKind::Untracked => 409,
        GitErrorKind::Ignored => 409,
        GitErrorKind::OperationInProgress => 409,
        GitErrorKind::EmptyMessage => 422,
        GitErrorKind::PathNotAllowed => 422,
        GitErrorKind::Locked => 423,
        GitErrorKind::GitFailed => 500,
        GitErrorKind::GitTimeout => 500,
        GitErrorKind::IoError => 500,
        GitErrorKind::ReloadFailed => 500,
        GitErrorKind::Internal => 500,
    }
}

/// Only the first token a request offers counts (the query's, else the
/// bearer one, else the token header's): a wrong query token is refused
/// whatever the headers hold.
pub proof fn lemma_first_presented_decides(
    token: Seq<char>,
    query: Option<Seq<char>>,
    authorization: Option<Seq<char>>,
    token_header: Option<Seq<char>>,
)
    ensures
        query matches Some(q) ==> (presented(query, authorization, token_header) == Some(token) <==> q
            == token),
        query is None && authorization is None ==> presented(query, authorization, token_header)
            == token_header,
{
}

} // verus!
