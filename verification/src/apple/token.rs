//! The token that the catalog is asked with: where it is found, how long it is
//! used, and when a new one is looked for.
use base64::Engine;
use vstd::prelude::*;

use crate::text::{
    ascii_alphanumeric, chars_of, find_from, found_from, is_ascii_alphanumeric, lemma_found_from,
    lemma_found_from_skip, occurs_at, split, split_text, splitting_goes_on_behind_the_separator,
    splitting_is_undone_by_joining, splitting_starts_with_the_first_part, starts_with, text_of,
    texts,
};

verus! {

/// The page that names the bundle with the token in it.
pub const HOME: &'static str = "https://beta.music.apple.com";

/// What the name of the bundle starts with.
pub const ASSET_PREFIX: &'static str = "/assets/index-legacy";

/// How many seconds before it expires a token is no longer used.
pub const EXPIRY_MARGIN: u64 = 300;

/// A token, and the second at which it expires.
pub struct Token {
    pub token: String,
    pub expires_at: u64,
}

/// A token by its characters.
pub struct TokenView {
    pub token: Seq<char>,
    pub expires_at: u64,
}

impl View for Token {
    type V = TokenView;

    open spec fn view(&self) -> TokenView {
        TokenView { token: self.token@, expires_at: self.expires_at }
    }
}

/// A token that may be missing, by its characters.
pub open spec fn maybe_token(token: Option<Token>) -> Option<TokenView> {
    match token {
        Some(token) => Some(token@),
        None => None,
    }
}

/// What a token says of itself.
pub struct Claims {
    pub exp: u64,
    pub origin: Option<String>,
}

/// Whether a token that expires at `expires_at` is still used at `now`.
pub open spec fn fresh_at(expires_at: u64, now: u64) -> bool {
    expires_at > now + EXPIRY_MARGIN
}

impl Token {
    /// Whether the token is still used at `now`.
    pub fn fresh(&self, now: u64) -> (yes: bool)
        ensures
            yes == fresh_at(self.expires_at, now),
    {
        self.expires_at.saturating_sub(EXPIRY_MARGIN) > now
    }
}

/// The token that can be used at `now`, of one that may be there.
pub open spec fn at_hand(token: Option<TokenView>, now: u64) -> Option<Seq<char>> {
    match token {
        Some(token) => if fresh_at(token.expires_at, now) {
            Some(token.token)
        } else {
            None
        },
        None => None,
    }
}

/// A token is used until shortly before it expires, and once it cannot be used
/// it never can again; and where none is kept, none is at hand.
pub proof fn token_is_used_while_it_lasts(token: TokenView, now: u64, later: u64)
    requires
        now <= later,
    ensures
        at_hand(Some(token), now) is Some <==> now < token.expires_at - EXPIRY_MARGIN,
        at_hand(Some(token), now) is None ==> at_hand(Some(token), later) is None,
        at_hand(None, now) is None,
{
}

/// Where the token is, or is to be looked for next.
pub enum TokenStep {
    /// This token is to be used.
    Use(String),
    /// One may have been stored.
    Load,
    /// One is to be found on the site.
    Scrape,
}

/// The token that was used last.
pub struct TokenStore {
    pub cached: Option<Token>,
}

impl View for TokenStore {
    type V = Option<TokenView>;

    open spec fn view(&self) -> Option<TokenView> {
        maybe_token(self.cached)
    }
}

impl Default for TokenStore {
    fn default() -> (store: Self)
        ensures
            store@ is None,
    {
        TokenStore::new()
    }
}

impl TokenStore {
    /// A store without a token.
    pub fn new() -> (store: TokenStore)
        ensures
            store@ is None,
    {
        TokenStore { cached: None }
    }

    /// The token to use at `now`, where it is at hand, and else that one may have
    /// been stored.
    pub fn get(&self, now: u64) -> (step: TokenStep)
        ensures
            match at_hand(self@, now) {
                Some(secret) => step matches TokenStep::Use(found) && found@ == secret,
                None => step is Load,
            },
    {
        if let Some(token) = &self.cached {
            if token.fresh(now) {
                return TokenStep::Use(token.token.clone());
            }
        }
        TokenStep::Load
    }

    /// Takes the token that was stored, if any, where it can still be used; else
    /// one is to be found on the site.
    pub fn loaded(&mut self, stored: Option<Token>, now: u64) -> (step: TokenStep)
        ensures
            match at_hand(maybe_token(stored), now) {
                Some(secret) => {
                    &&& step matches TokenStep::Use(found)
                    &&& found@ == secret
                    &&& final(self)@ == maybe_token(stored)
                },
                None => step is Scrape && final(self)@ == old(self)@,
            },
    {
        if let Some(token) = stored {
            if token.fresh(now) {
                let secret = token.token.clone();
                self.cached = Some(token);
                return TokenStep::Use(secret);
            }
        }
        TokenStep::Scrape
    }

    /// Takes the first token of a bundle that can be used at `now`, where `claims`
    /// holds what each says of itself; that there is none is an error.
    pub fn scraped(
        &mut self,
        asset: &str,
        tokens: &Vec<String>,
        claims: &Vec<Option<Claims>>,
        now: u64,
    ) -> (found: Result<String, String>)
        requires
            tokens@.len() == claims@.len(),
        ensures
            match first_of_use(texts(tokens@), claims@, now) {
                Some(token) => {
                    &&& found matches Ok(secret)
                    &&& secret@ == token.token
                    &&& final(self)@ == Some(token)
                },
                None => {
                    &&& found matches Err(message)
                    &&& message@ == "apple: no usable developer token in "@ + asset@
                    &&& final(self)@ == old(self)@
                },
            },
    {
        match first_usable(asset, tokens, claims, now) {
            Ok(token) => {
                let secret = token.token.clone();
                self.cached = Some(token);
                Ok(secret)
            },
            Err(message) => Err(message),
        }
    }

    /// Gives the token up.
    pub fn invalidate(&mut self)
        ensures
            final(self)@ is None,
    {
        self.cached = None;
    }
}

/// The token that is used at `now`, and kept: the one that was kept, or else the
/// one that was stored, as far as they can still be used, or else the one that
/// was found on the site.
pub open spec fn obtained(
    kept: Option<TokenView>,
    stored: Option<TokenView>,
    scraped: Option<TokenView>,
    now: u64,
) -> Option<TokenView> {
    if at_hand(kept, now) is Some {
        kept
    } else if at_hand(stored, now) is Some {
        stored
    } else {
        scraped
    }
}

/// The first of some tokens that can be used at `now`, where `claims` holds what
/// each says of itself.
pub open spec fn first_of_use(
    tokens: Seq<Seq<char>>,
    claims: Seq<Option<Claims>>,
    now: u64,
) -> Option<TokenView>
    decreases claims.len(),
{
    if claims.len() == 0 {
        None
    } else if usable_at(claims[0], now) {
        Some(TokenView { token: tokens[0], expires_at: claims[0]->0.exp })
    } else {
        first_of_use(tokens.drop_first(), claims.drop_first(), now)
    }
}

/// Whether the token at `i` is the first that can be used at `now`.
pub open spec fn is_first_of_use(claims: Seq<Option<Claims>>, now: u64, i: int) -> bool {
    &&& 0 <= i < claims.len()
    &&& usable_at(claims[i], now)
    &&& forall|j: int| 0 <= j < i ==> !usable_at(#[trigger] claims[j], now)
}

proof fn lemma_first_of_use(
    tokens: Seq<Seq<char>>,
    claims: Seq<Option<Claims>>,
    now: u64,
    i: int,
)
    requires
        tokens.len() == claims.len(),
        is_first_of_use(claims, now, i),
    ensures
        first_of_use(tokens, claims, now) == Some(
            TokenView { token: tokens[i], expires_at: claims[i]->0.exp },
        ),
    decreases claims.len(),
{
    if i > 0 {
        let rest = claims.drop_first();
        assert(!usable_at(claims[0], now));
        assert forall|j: int| 0 <= j < i - 1 implies !usable_at(#[trigger] rest[j], now) by {
            assert(!usable_at(claims[j + 1], now));
        }
        lemma_first_of_use(tokens.drop_first(), rest, now, i - 1);
    }
}

proof fn lemma_none_of_use(tokens: Seq<Seq<char>>, claims: Seq<Option<Claims>>, now: u64)
    requires
        forall|i: int| 0 <= i < claims.len() ==> !usable_at(#[trigger] claims[i], now),
    ensures
        first_of_use(tokens, claims, now) is None,
    decreases claims.len(),
{
    if claims.len() > 0 {
        assert(!usable_at(claims[0], now));
        let rest = claims.drop_first();
        assert forall|i: int| 0 <= i < rest.len() implies !usable_at(#[trigger] rest[i], now) by {
            assert(!usable_at(claims[i + 1], now));
        }
        lemma_none_of_use(tokens.drop_first(), rest, now);
    }
}

/// Once a token is given up, so that none is kept and none is stored, the next
/// one is the first in the bundle that can be used: of the tokens there, all of
/// which have three parts, the first that is bound to no origin and has not
/// expired. It is kept with the second at which it expires.
pub proof fn given_up_token_is_found_anew(
    js: Seq<char>,
    claims: Seq<Option<Claims>>,
    now: u64,
    i: int,
)
    requires
        claims.len() == tokens_from(js, 0).len(),
        is_first_of_use(claims, now, i),
    ensures
        ({
            let tokens = tokens_from(js, 0);
            let token = obtained(None, None, first_of_use(tokens, claims, now), now);
            &&& token == Some(TokenView { token: tokens[i], expires_at: claims[i]->0.exp })
            &&& three_parts(tokens[i])
            &&& claims[i]->0.origin is None
            &&& claims[i]->0.exp > now
        }),
{
    lemma_first_of_use(tokens_from(js, 0), claims, now, i);
    tokens_have_their_shape(js, 0, i);
}

/// Whether `c` may stand in the name of a bundle, between its start and its end.
pub open spec fn asset_char(c: char) -> bool {
    ascii_alphanumeric(c) || c == '~' || c == '-' || c == '_'
}

/// The path of the bundle that a page names: from the start of such a name to
/// the first `.js` behind it, with nothing but [`asset_char`]s between.
pub open spec fn asset_in(html: Seq<char>) -> Option<Seq<char>> {
    match found_from(html, ASSET_PREFIX@, 0) {
        Some(start) => {
            let tail = start + ASSET_PREFIX@.len();
            match found_from(html, ".js"@, tail) {
                Some(end) => if forall|i: int| tail <= i < end ==> asset_char(#[trigger] html[i]) {
                    Some(html.subrange(start, end + 3))
                } else {
                    None
                },
                None => None,
            }
        },
        None => None,
    }
}

/// The path of the bundle that a page names.
pub fn find_asset(html: &str) -> (asset: Option<String>)
    ensures
        match asset {
            Some(asset) => asset_in(html@) == Some(asset@),
            None => asset_in(html@) is None,
        },
{
    proof {
        reveal_strlit(".js");
        lemma_found_from(html@, ASSET_PREFIX@, 0);
    }
    let chars = chars_of(html);
    let prefix = chars_of(ASSET_PREFIX);
    let suffix = chars_of(".js");
    let len = chars.len();
    let start = match find_from(&chars, &prefix, 0) {
        Some(start) => start,
        None => return None,
    };
    let tail = start + prefix.len();
    let end = match find_from(&chars, &suffix, tail) {
        Some(end) => end,
        None => return None,
    };
    let mut i: usize = tail;
    while i < end
        invariant
            tail <= i <= end <= chars@.len(),
            chars@ == html@,
            tail == start + ASSET_PREFIX@.len(),
            found_from(html@, ASSET_PREFIX@, 0) == Some(start as int),
            found_from(html@, ".js"@, tail as int) == Some(end as int),
            forall|j: int| tail <= j < i ==> asset_char(#[trigger] chars@[j]),
        decreases end - i,
    {
        let c = chars[i];
        if !(is_ascii_alphanumeric(c) || c == '~' || c == '-' || c == '_') {
            proof {
                assert(!asset_char(chars@[i as int]));
            }
            return None;
        }
        i += 1;
    }
    Some(text_of(&chars, start, end + 3))
}

/// A page names a bundle only by a path of the expected shape.
pub proof fn asset_has_its_shape(html: Seq<char>)
    ensures
        asset_in(html) matches Some(asset) ==> {
            &&& asset.take(ASSET_PREFIX@.len() as int) == ASSET_PREFIX@
            &&& asset.skip(asset.len() - 3) == ".js"@
            &&& forall|i: int|
                ASSET_PREFIX@.len() <= i < asset.len() - 3 ==> asset_char(#[trigger] asset[i])
        },
{
    reveal_strlit(".js");
    if let Some(asset) = asset_in(html) {
        lemma_found_from(html, ASSET_PREFIX@, 0);
        let start = found_from(html, ASSET_PREFIX@, 0)->0;
        let tail = start + ASSET_PREFIX@.len();
        lemma_found_from(html, ".js"@, tail);
        let end = found_from(html, ".js"@, tail)->0;
        assert(asset.take(ASSET_PREFIX@.len() as int) =~= html.subrange(start, tail));
        assert(asset.skip(asset.len() - 3) =~= html.subrange(end, end + 3));
        assert forall|i: int| ASSET_PREFIX@.len() <= i < asset.len() - 3 implies asset_char(
            #[trigger] asset[i],
        ) by {
            assert(asset_char(html[start + i]));
        }
    }
}

/// The path and the address of the bundle that the page at [`HOME`] names; a
/// page that names none is an error.
pub fn bundle(html: &str) -> (found: Result<(String, String), String>)
    ensures
        match found {
            Ok((asset, url)) => asset_in(html@) == Some(asset@) && url@ == HOME@ + asset@,
            Err(message) => asset_in(html@) is None && message@ == "apple: no "@ + ASSET_PREFIX@
                + " bundle referenced by "@ + HOME@,
        },
{
    match find_asset(html) {
        Some(asset) => {
            let mut url = HOME.to_owned();
            url.append(asset.as_str());
            Ok((asset, url))
        },
        None => {
            let mut message = "apple: no ".to_owned();
            message.append(ASSET_PREFIX);
            message.append(" bundle referenced by ");
            message.append(HOME);
            Err(message)
        },
    }
}

/// Whether `c` may stand in a token.
pub open spec fn token_char(c: char) -> bool {
    ascii_alphanumeric(c) || c == '.' || c == '-' || c == '_'
}

/// Whether `c` may stand in a token.
pub fn is_token_char(c: char) -> (yes: bool)
    ensures
        yes == token_char(c),
{
    is_ascii_alphanumeric(c) || c == '.' || c == '-' || c == '_'
}

/// Where the run of token characters at `from` ends.
pub open spec fn token_end(js: Seq<char>, from: int) -> int
    decreases js.len() - from,
{
    if from < js.len() && token_char(js[from]) {
        token_end(js, from + 1)
    } else {
        from
    }
}

/// Whether a run of token characters has the shape of a token: three parts
/// between dots, none of them empty.
pub open spec fn three_parts(run: Seq<char>) -> bool {
    let parts = split(run, '.');
    parts.len() == 3 && parts[0].len() > 0 && parts[1].len() > 0 && parts[2].len() > 0
}

/// The tokens in a bundle, from `from` on: of the runs of token characters that
/// start with `eyJ`, those that have the shape of a token.
pub open spec fn tokens_from(js: Seq<char>, from: int) -> Seq<Seq<char>>
    decreases js.len() - from,
{
    match found_from(js, "eyJ"@, from) {
        Some(start) => {
            let end = token_end(js, start);
            if from < end <= js.len() {
                let run = js.subrange(start, end);
                if three_parts(run) {
                    seq![run] + tokens_from(js, end)
                } else {
                    tokens_from(js, end)
                }
            } else {
                seq![]
            }
        },
        None => seq![],
    }
}

proof fn lemma_token_end(js: Seq<char>, from: int, end: int)
    requires
        0 <= from <= end <= js.len(),
        forall|i: int| from <= i < end ==> token_char(#[trigger] js[i]),
        end < js.len() ==> !token_char(js[end]),
    ensures
        token_end(js, from) == end,
    decreases end - from,
{
    if from < end {
        assert(token_char(js[from]));
        lemma_token_end(js, from + 1, end);
    }
}

/// The tokens in a bundle.
pub fn jwts(js: &str) -> (tokens: Vec<String>)
    ensures
        texts(tokens@) == tokens_from(js@, 0),
{
    let chars = chars_of(js);
    let head = chars_of("eyJ");
    let len = chars.len();
    let mut tokens: Vec<String> = Vec::new();
    let mut from: usize = 0;
    proof {
        reveal_strlit("eyJ");
        assert(texts(tokens@) + tokens_from(js@, 0) =~= tokens_from(js@, 0));
    }
    loop
        invariant
            chars@ == js@,
            head@ == "eyJ"@,
            "eyJ"@.len() == 3,
            "eyJ"@[0] == 'e',
            from <= chars@.len() == len,
            texts(tokens@) + tokens_from(js@, from as int) == tokens_from(js@, 0),
        decreases chars@.len() - from,
    {
        let start = match find_from(&chars, &head, from) {
            Some(start) => start,
            None => {
                proof {
                    assert(texts(tokens@) + Seq::<Seq<char>>::empty() =~= texts(tokens@));
                }
                return tokens;
            },
        };
        proof {
            lemma_found_from(js@, "eyJ"@, from as int);
            assert(js@.subrange(start as int, start + 3)[0] == 'e');
            assert(token_char(chars@[start as int]));
        }
        let mut end: usize = start;
        while end < chars.len() && is_token_char(chars[end])
            invariant
                start <= end <= chars@.len(),
                forall|i: int| start <= i < end ==> token_char(#[trigger] chars@[i]),
            decreases chars@.len() - end,
        {
            end += 1;
        }
        proof {
            lemma_token_end(chars@, start as int, end as int);
        }
        let run = text_of(&chars, start, end);
        let parts = split_text(run.as_str(), '.');
        let ghost before = texts(tokens@);
        let ghost rest = tokens_from(js@, end as int);
        proof {
            assert(texts(parts@) == split(run@, '.'));
            if parts@.len() == 3 {
                assert(texts(parts@)[0] == parts@[0]@);
                assert(texts(parts@)[1] == parts@[1]@);
                assert(texts(parts@)[2] == parts@[2]@);
            }
        }
        if parts.len() == 3 && !parts[0].as_str().is_empty() && !parts[1].as_str().is_empty()
            && !parts[2].as_str().is_empty() {
            let ghost text = run@;
            tokens.push(run);
            proof {
                assert(texts(tokens@) =~= before.push(text));
                assert(before + (seq![text] + rest) =~= before.push(text) + rest);
            }
        }
        from = end;
    }
}

/// The bytes that `text` stands for in base64, in the URL-safe alphabet and
/// without padding, where it is such a text.
pub uninterp spec fn base64_decoded(text: Seq<char>) -> Option<Seq<u8>>;

/// `Engine::decode` of the `base64` crate, with its URL-safe alphabet and no
/// padding. What it gives is determined by the characters of `text`.
#[verifier::external_body]
fn decode(text: &str) -> (bytes: Option<Vec<u8>>)
    ensures
        bytes is Some <==> base64_decoded(text@) is Some,
        bytes matches Some(bytes) ==> base64_decoded(text@) == Some(bytes@),
{
    base64::engine::general_purpose::URL_SAFE_NO_PAD.decode(text).ok()
}

/// The part of a token in which it says something of itself, if it has one.
pub open spec fn payload_part(jwt: Seq<char>) -> Option<Seq<char>> {
    let parts = split(jwt, '.');
    if parts.len() >= 2 {
        Some(parts[1])
    } else {
        None
    }
}

/// The part of a token in which it says something of itself, if it has one.
pub fn payload_of(jwt: &str) -> (part: Option<String>)
    ensures
        match part {
            Some(part) => payload_part(jwt@) == Some(part@),
            None => payload_part(jwt@) is None,
        },
{
    let mut parts = split_text(jwt, '.');
    proof {
        assert(texts(parts@) == split(jwt@, '.'));
    }
    if parts.len() >= 2 {
        proof {
            assert(texts(parts@)[1] == parts@[1]@);
        }
        Some(parts.remove(1))
    } else {
        None
    }
}

/// What a token says of itself, as bytes, where it can be decoded.
pub fn payload(jwt: &str) -> (bytes: Option<Vec<u8>>)
    ensures
        match payload_part(jwt@) {
            Some(part) => match bytes {
                Some(bytes) => base64_decoded(part) == Some(bytes@),
                None => base64_decoded(part) is None,
            },
            None => bytes is None,
        },
{
    match payload_of(jwt) {
        Some(part) => decode(part.as_str()),
        None => None,
    }
}

/// Whether a token can be used at `now`, going by what it says of itself: it
/// says it, is bound to no origin, and has not expired.
pub open spec fn usable_at(claims: Option<Claims>, now: u64) -> bool {
    match claims {
        Some(claims) => claims.origin is None && claims.exp > now,
        None => false,
    }
}

/// The token to use, where `jwt` can be used at `now`.
pub fn usable(jwt: &str, claims: &Option<Claims>, now: u64) -> (token: Option<Token>)
    ensures
        token is Some <==> usable_at(*claims, now),
        token matches Some(token) ==> token.token@ == jwt@ && token.expires_at == claims->0.exp,
{
    match claims {
        Some(claims) => {
            if claims.origin.is_some() || claims.exp <= now {
                return None;
            }
            Some(Token { token: jwt.to_owned(), expires_at: claims.exp })
        },
        None => None,
    }
}

/// The first of some tokens that can be used at `now`, where `claims` holds what
/// each says of itself; that there is none is an error.
pub fn first_usable(
    asset: &str,
    tokens: &Vec<String>,
    claims: &Vec<Option<Claims>>,
    now: u64,
) -> (found: Result<Token, String>)
    requires
        tokens@.len() == claims@.len(),
    ensures
        match found {
            Ok(token) => first_of_use(texts(tokens@), claims@, now) == Some(token@),
            Err(message) => first_of_use(texts(tokens@), claims@, now) is None && message@
                == "apple: no usable developer token in "@ + asset@,
        },
{
    let mut i: usize = 0;
    while i < tokens.len()
        invariant
            i <= tokens@.len() == claims@.len(),
            forall|j: int| 0 <= j < i ==> !usable_at(#[trigger] claims@[j], now),
        decreases tokens@.len() - i,
    {
        if let Some(token) = usable(tokens[i].as_str(), &claims[i], now) {
            proof {
                lemma_first_of_use(texts(tokens@), claims@, now, i as int);
            }
            return Ok(token);
        }
        i += 1;
    }
    proof {
        lemma_none_of_use(texts(tokens@), claims@, now);
    }
    let mut message = "apple: no usable developer token in ".to_owned();
    message.append(asset);
    Err(message)
}

/// Every token in a bundle starts with `eyJ`, holds token characters only, and
/// has three parts.
pub proof fn tokens_have_their_shape(js: Seq<char>, from: int, i: int)
    requires
        0 <= from,
        0 <= i < tokens_from(js, from).len(),
    ensures
        three_parts(tokens_from(js, from)[i]),
        tokens_from(js, from)[i].take(3) == "eyJ"@,
        forall|j: int|
            0 <= j < tokens_from(js, from)[i].len() ==> token_char(
                #[trigger] tokens_from(js, from)[i][j],
            ),
    decreases js.len() - from,
{
    reveal_strlit("eyJ");
    lemma_found_from(js, "eyJ"@, from);
    let start = found_from(js, "eyJ"@, from)->0;
    let end = token_end(js, start);
    let run = js.subrange(start, end);
    lemma_run(js, start);
    let rest = tokens_from(js, end);
    assert(js.subrange(start, start + 3) == "eyJ"@);
    assert(js[start] == js.subrange(start, start + 3)[0]);
    assert(js[start + 1] == js.subrange(start, start + 3)[1]);
    assert(js[start + 2] == js.subrange(start, start + 3)[2]);
    if three_parts(run) && i == 0 {
        assert(tokens_from(js, from)[0] == run);
        lemma_run(js, start + 3);
        assert(token_char(js[start]) && token_char(js[start + 1]) && token_char(js[start + 2]));
        assert(token_end(js, start + 2) == token_end(js, start + 3));
        assert(token_end(js, start + 1) == token_end(js, start + 2));
        assert(end >= start + 3);
        assert(run.take(3) =~= js.subrange(start, start + 3));
    } else if three_parts(run) {
        tokens_have_their_shape(js, end, i - 1);
        assert(tokens_from(js, from)[i] == rest[i - 1]);
    } else {
        tokens_have_their_shape(js, end, i);
    }
}

proof fn lemma_run(js: Seq<char>, from: int)
    requires
        0 <= from,
    ensures
        token_end(js, from) >= from,
        from <= js.len() ==> token_end(js, from) <= js.len(),
        forall|i: int| from <= i < token_end(js, from) ==> token_char(#[trigger] js[i]),
    decreases js.len() - from,
{
    if from < js.len() && token_char(js[from]) {
        lemma_run(js, from + 1);
    }
}

/// A token is used as long as it lasts for more than five minutes.
pub proof fn tokens_are_used_up_to_five_minutes_before(token: TokenView, now: u64)
    ensures
        at_hand(Some(token), now) == if now + 300 < token.expires_at {
            Some(token.token)
        } else {
            None
        },
{
}

/// A token is used just where it says of itself when it expires, that is still to
/// come, and it is bound to no origin.
pub proof fn tokens_bound_to_an_origin_are_of_no_use(claims: Claims, now: u64)
    ensures
        usable_at(Some(claims), now) <==> claims.origin is None && now < claims.exp,
        !usable_at(None, now),
{
}

/// The token that was kept is used before the one that was stored, and that before
/// the one that was found on the site, as far as they can still be used.
pub proof fn kept_tokens_are_used_first(
    kept: TokenView,
    stored: TokenView,
    scraped: TokenView,
    now: u64,
)
    ensures
        now + 300 < kept.expires_at ==> obtained(Some(kept), Some(stored), Some(scraped), now)
            == Some(kept),
        now + 300 >= kept.expires_at && now + 300 < stored.expires_at ==> obtained(
            Some(kept),
            Some(stored),
            Some(scraped),
            now,
        ) == Some(stored),
        now + 300 >= kept.expires_at && now + 300 >= stored.expires_at ==> obtained(
            Some(kept),
            Some(stored),
            Some(scraped),
            now,
        ) == Some(scraped),
        now + 300 < stored.expires_at ==> obtained(None, Some(stored), Some(scraped), now) == Some(
            stored,
        ),
        obtained(None, None, Some(scraped), now) == Some(scraped),
{
}

/// Whether `c` is an ASCII letter, a digit, a hyphen or an underscore.
pub open spec fn word_char(c: char) -> bool {
    'a' <= c <= 'z' || 'A' <= c <= 'Z' || '0' <= c <= '9' || c == '-' || c == '_'
}

/// The first bundle that a page names is found, with all of its name: what stands
/// between the start of the name and the first `.js` behind it, where that is made
/// of letters, digits, hyphens, underscores and tildes. Where anything else stands
/// there, none is found.
pub proof fn the_first_bundle_is_found(before: Seq<char>, name: Seq<char>, behind: Seq<char>)
    requires
        ({
            let html = before + "/assets/index-legacy"@ + name + ".js"@ + behind;
            forall|j: int|
                0 <= j < before.len() ==> !#[trigger] occurs_at(html, "/assets/index-legacy"@, j)
        }),
        !name.contains('.'),
    ensures
        ({
            let html = before + "/assets/index-legacy"@ + name + ".js"@ + behind;
            &&& (forall|i: int| 0 <= i < name.len() ==> word_char(#[trigger] name[i]) || name[i] == '~')
                ==> asset_in(html) == Some("/assets/index-legacy"@ + name + ".js"@)
            &&& (exists|i: int|
                0 <= i < name.len() && !word_char(#[trigger] name[i]) && name[i] != '~')
                ==> asset_in(html) is None
        }),
{
    reveal_strlit(".js");
    let prefix = "/assets/index-legacy"@;
    let html = before + prefix + name + ".js"@ + behind;
    let start = before.len() as int;
    let tail = start + prefix.len();
    let end = tail + name.len();
    assert(html.subrange(start, tail) =~= prefix);
    assert(occurs_at(html, prefix, start));
    lemma_found_from(html, prefix, 0);
    assert(found_from(html, prefix, 0) == Some(start)) by {
        let i = found_from(html, prefix, 0)->0;
        if i < start {
            assert(!occurs_at(html, prefix, i));
        }
    }
    assert(html.subrange(end, end + 3) =~= ".js"@);
    assert(occurs_at(html, ".js"@, end));
    lemma_found_from(html, ".js"@, tail);
    assert(found_from(html, ".js"@, tail) == Some(end)) by {
        let i = found_from(html, ".js"@, tail)->0;
        if i < end {
            assert(html.subrange(i, i + 3)[0] == html[i]);
            assert(html[i] == name[i - tail]);
            assert(name.contains('.'));
        }
    }
    if forall|i: int| 0 <= i < name.len() ==> word_char(#[trigger] name[i]) || name[i] == '~' {
        assert forall|i: int| tail <= i < end implies asset_char(#[trigger] html[i]) by {
            assert(html[i] == name[i - tail]);
            assert(word_char(name[i - tail]) || name[i - tail] == '~');
        }
        assert(html.subrange(start, end + 3) =~= prefix + name + ".js"@);
    }
    if exists|i: int| 0 <= i < name.len() && !word_char(#[trigger] name[i]) && name[i] != '~' {
        let i = choose|i: int|
            0 <= i < name.len() && !word_char(#[trigger] name[i]) && name[i] != '~';
        assert(html[tail + i] == name[i]);
        assert(!asset_char(html[tail + i]));
    }
}

/// A token is made of three parts, none of them empty, with a dot between two; and
/// what it says of itself stands in the second.
pub proof fn tokens_say_of_themselves_in_the_second_part(
    head: Seq<char>,
    payload: Seq<char>,
    signature: Seq<char>,
)
    requires
        !head.contains('.'),
        !payload.contains('.'),
    ensures
        ({
            let jwt = head.push('.') + (payload.push('.') + signature);
            &&& payload_part(jwt) == Some(payload)
            &&& !signature.contains('.') ==> (three_parts(jwt) <==> head.len() > 0 && payload.len()
                > 0 && signature.len() > 0)
            &&& signature.contains('.') ==> !three_parts(jwt)
        }),
        payload_part(head) is None,
{
    let rest = payload.push('.') + signature;
    splitting_goes_on_behind_the_separator(head, '.', rest);
    splitting_goes_on_behind_the_separator(payload, '.', signature);
    splitting_starts_with_the_first_part(head, '.', rest);
    let parts = split(head.push('.') + rest, '.');
    assert(parts =~= seq![head, payload] + split(signature, '.'));
    if signature.contains('.') {
        lemma_more_parts(signature);
    } else {
        splitting_starts_with_the_first_part(signature, '.', seq![]);
    }
}

proof fn lemma_more_parts(s: Seq<char>)
    requires
        s.contains('.'),
    ensures
        split(s, '.').len() >= 2,
{
    splitting_is_undone_by_joining(s, '.');
    let parts = split(s, '.');
    if parts.len() == 1 {
        assert(parts[0] == s);
    }
}

proof fn lemma_token_end_skip(js: Seq<char>, cut: int, from: int)
    requires
        0 <= cut <= js.len(),
        0 <= from,
    ensures
        token_end(js.skip(cut), from) == token_end(js, cut + from) - cut,
    decreases js.len() - cut - from,
{
    if cut + from < js.len() && token_char(js[cut + from]) {
        lemma_token_end_skip(js, cut, from + 1);
    }
}

proof fn lemma_tokens_skip(js: Seq<char>, cut: int, from: int)
    requires
        0 <= cut <= js.len(),
        0 <= from,
    ensures
        tokens_from(js.skip(cut), from) == tokens_from(js, cut + from),
    decreases js.len() - cut - from,
{
    lemma_found_from_skip(js, "eyJ"@, cut, from);
    lemma_found_from(js, "eyJ"@, cut + from);
    if let Some(start) = found_from(js, "eyJ"@, cut + from) {
        lemma_token_end_skip(js, cut, start - cut);
        lemma_run(js, start);
        let end = token_end(js, start);
        if cut + from < end <= js.len() {
            assert(js.skip(cut).subrange(start - cut, end - cut) =~= js.subrange(start, end));
            lemma_tokens_skip(js, cut, end - cut);
        }
    }
}

/// Every token in a bundle is found, in the order in which they stand there: a run
/// of letters, digits, dots, hyphens and underscores that starts with `eyJ`, up to
/// the first character that is none of these, is one where it has three parts; and
/// the search goes on behind it.
pub proof fn every_token_is_found(before: Seq<char>, run: Seq<char>, behind: Seq<char>)
    requires
        forall|j: int|
            0 <= j < before.len() ==> !#[trigger] occurs_at(before + run + behind, "eyJ"@, j),
        starts_with(run, seq!['e', 'y', 'J']),
        forall|i: int| 0 <= i < run.len() ==> word_char(#[trigger] run[i]) || run[i] == '.',
        behind.len() > 0 ==> !word_char(behind[0]) && behind[0] != '.',
    ensures
        three_parts(run) ==> tokens_from(before + run + behind, 0) == seq![run] + tokens_from(
            behind,
            0,
        ),
        !three_parts(run) ==> tokens_from(before + run + behind, 0) == tokens_from(behind, 0),
{
    reveal_strlit("eyJ");
    assert("eyJ"@ =~= seq!['e', 'y', 'J']);
    let js = before + run + behind;
    let start = before.len() as int;
    let end = start + run.len();
    assert(js.subrange(start, start + 3) =~= run.take(3));
    assert(occurs_at(js, "eyJ"@, start));
    lemma_found_from(js, "eyJ"@, 0);
    assert(found_from(js, "eyJ"@, 0) == Some(start)) by {
        let i = found_from(js, "eyJ"@, 0)->0;
        if i < start {
            assert(!occurs_at(js, "eyJ"@, i));
        }
    }
    assert forall|i: int| start <= i < end implies token_char(#[trigger] js[i]) by {
        assert(js[i] == run[i - start]);
        assert(word_char(run[i - start]) || run[i - start] == '.');
    }
    if end < js.len() {
        assert(js[end] == behind[0]);
    }
    lemma_token_end(js, start, end);
    assert(js.subrange(start, end) =~= run);
    lemma_tokens_skip(js, end, 0);
    assert(js.skip(end) =~= behind);
}

} // verus!
