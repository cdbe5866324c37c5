//! The search-query language of the client: lexing, escaping, quoting,
//! grouping and item building.
use vstd::prelude::*;
use crate::text::{append_str, copy_string, push_char, str_eq};

verus! {

/// A lexical token of a search query.
pub enum Token {
    /// ' '
    Space,
    /// '\'
    Escape,
    /// '!'
    Not,
    /// ':'
    What,
    /// '''
    TextOpen1,
    /// '"'
    TextOpen2,
    /// '('
    GroupOpen,
    /// ')'
    GroupClose,
    /// '|'
    Or,
    /// '&'
    And,
    Keyword(String),
}

/// Mathematical model of a [`Token`].
pub enum TokenV {
    Space,
    Escape,
    Not,
    What,
    TextOpen1,
    TextOpen2,
    GroupOpen,
    GroupClose,
    Or,
    And,
    Keyword(Seq<char>),
}

impl View for Token {
    type V = TokenV;

    open spec fn view(&self) -> TokenV {
        match self {
            Token::Space => TokenV::Space,
            Token::Escape => TokenV::Escape,
            Token::Not => TokenV::Not,
            Token::What => TokenV::What,
            Token::TextOpen1 => TokenV::TextOpen1,
            Token::TextOpen2 => TokenV::TextOpen2,
            Token::GroupOpen => TokenV::GroupOpen,
            Token::GroupClose => TokenV::GroupClose,
            Token::Or => TokenV::Or,
            Token::And => TokenV::And,
            Token::Keyword(s) => TokenV::Keyword(s@),
        }
    }
}

/// Models of a sequence of tokens.
pub open spec fn tokens_view(v: Seq<Token>) -> Seq<TokenV> {
    Seq::new(v.len(), |i: int| v[i]@)
}

/// The token that a single character of a query becomes.
pub open spec fn lex_char(c: char) -> TokenV {
    if c == ' ' {
        TokenV::Space
    } else if c == '\\' {
        TokenV::Escape
    } else if c == '!' {
        TokenV::Not
    } else if c == ':' {
        TokenV::What
    } else if c == '\'' {
        TokenV::TextOpen1
    } else if c == '"' {
        TokenV::TextOpen2
    } else if c == '(' {
        TokenV::GroupOpen
    } else if c == ')' {
        TokenV::GroupClose
    } else if c == '|' {
        TokenV::Or
    } else if c == '&' {
        TokenV::And
    } else {
        TokenV::Keyword(seq![c])
    }
}

/// The tokens of a query: one per character.
pub open spec fn lexed(s: Seq<char>) -> Seq<TokenV> {
    Seq::new(s.len(), |i: int| lex_char(s[i]))
}

/// The character a non-keyword token stands for.
pub open spec fn token_char(t: TokenV) -> Option<char> {
    match t {
        TokenV::Space => Some(' '),
        TokenV::Escape => Some('\\'),
        TokenV::Not => Some('!'),
        TokenV::What => Some(':'),
        TokenV::TextOpen1 => Some('\''),
        TokenV::TextOpen2 => Some('"'),
        TokenV::GroupOpen => Some('('),
        TokenV::GroupClose => Some(')'),
        TokenV::Or => Some('|'),
        TokenV::And => Some('&'),
        TokenV::Keyword(_) => None,
    }
}

/// The text a token displays as.
pub open spec fn token_text(t: TokenV) -> Seq<char> {
    match t {
        TokenV::Keyword(s) => s,
        _ => seq![token_char(t)->0],
    }
}

impl Token {
    /// The character a non-keyword token stands for; `None` for keywords.
    pub fn to_char(&self) -> (r: Option<char>)
        ensures
            r == token_char(self@),
    {
        match self {
            Token::Space => Some(' '),
            Token::Escape => Some('\\'),
            Token::Not => Some('!'),
            Token::What => Some(':'),
            Token::TextOpen1 => Some('\''),
            Token::TextOpen2 => Some('"'),
            Token::GroupOpen => Some('('),
            Token::GroupClose => Some(')'),
            Token::Or => Some('|'),
            Token::And => Some('&'),
            Token::Keyword(_) => None,
        }
    }

    /// The text the token displays as (its `Display` form).
    pub fn text(&self) -> (r: String)
        ensures
            r@ == token_text(self@),
    {
        match self {
            Token::Keyword(v) => copy_string(v),
            _ => {
                let c = match self.to_char() {
                    Some(c) => c,
                    None => ' ',
                };
                let mut s = String::new();
                push_char(&mut s, c);
                assert(s@ =~= seq![c]);
                s
            },
        }
    }

    /// A copy of the token.
    pub fn duplicate(&self) -> (r: Token)
        ensures
            r@ == self@,
    {
        match self {
            Token::Space => Token::Space,
            Token::Escape => Token::Escape,
            Token::Not => Token::Not,
            Token::What => Token::What,
            Token::TextOpen1 => Token::TextOpen1,
            Token::TextOpen2 => Token::TextOpen2,
            Token::GroupOpen => Token::GroupOpen,
            Token::GroupClose => Token::GroupClose,
            Token::Or => Token::Or,
            Token::And => Token::And,
            Token::Keyword(s) => Token::Keyword(copy_string(s)),
        }
    }
}

/// The token of one character.
pub fn lex_one(c: char) -> (t: Token)
    ensures
        t@ == lex_char(c),
{
    if c == ' ' {
        Token::Space
    } else if c == '\\' {
        Token::Escape
    } else if c == '!' {
        Token::Not
    } else if c == ':' {
        Token::What
    } else if c == '\'' {
        Token::TextOpen1
    } else if c == '"' {
        Token::TextOpen2
    } else if c == '(' {
        Token::GroupOpen
    } else if c == ')' {
        Token::GroupClose
    } else if c == '|' {
        Token::Or
    } else if c == '&' {
        Token::And
    } else {
        let mut s = String::new();
        push_char(&mut s, c);
        assert(s@ =~= seq![c]);
        Token::Keyword(s)
    }
}

/// Splits a query into tokens: one token per character, the special
/// characters ` \ ! : ' " ( ) | &` by kind and any other character as a
/// one-character keyword.
pub fn lexar(s: &str) -> (tokens: Vec<Token>)
    ensures
        tokens_view(tokens@) == lexed(s@),
{
    let mut tokens: Vec<Token> = Vec::new();
    for c in it: s.chars()
        invariant
            it.seq() == s@,
            tokens_view(tokens@) == lexed(it.seq().take(it.index() as int)),
    {
        assert(c == it.seq()[it.index() as int]);
        let t = lex_one(c);
        let ghost prev = tokens_view(tokens@);
        tokens.push(t);
        assert(tokens_view(tokens@) =~= prev.push(t@));
        assert(tokens_view(tokens@) =~= lexed(it.seq().take(it.index() + 1)));
    }
    assert(s@.take(s@.len() as int) =~= s@);
    tokens
}

// ---------------------------------------------------------------------------
// Escaping, quoting and merging.
// ---------------------------------------------------------------------------

/// First pass of post-lexing over the first `n` tokens: an escape makes the
/// next token a literal keyword of its character; escaping a keyword is an
/// error (`None`). The state carries whether an escape is pending.
pub open spec fn unescape(ts: Seq<TokenV>, n: int) -> Option<(Seq<TokenV>, bool)>
    decreases n,
{
    if n <= 0 {
        Some((seq![], false))
    } else {
        match unescape(ts, n - 1) {
            None => None,
            Some((out, next)) => {
                let t = ts[n - 1];
                if t is Escape {
                    Some((out, true))
                } else if next {
                    match token_char(t) {
                        None => None,
                        Some(c) => Some((out.push(TokenV::Keyword(seq![c])), false)),
                    }
                } else {
                    Some((out.push(t), false))
                }
            },
        }
    }
}

/// Second pass over the first `n` tokens: text between a quote and the same
/// quote becomes keywords; the quotes themselves disappear. The state is the
/// quote that is open, if any.
pub open spec fn unquote(ts: Seq<TokenV>, n: int) -> (Seq<TokenV>, Option<TokenV>)
    decreases n,
{
    if n <= 0 {
        (seq![], None)
    } else {
        let (out, lock) = unquote(ts, n - 1);
        let t = ts[n - 1];
        match lock {
            Some(l) => if t == l {
                (out, None)
            } else {
                (out.push(TokenV::Keyword(token_text(t))), lock)
            },
            None => if t is TextOpen1 || t is TextOpen2 {
                (out, Some(t))
            } else {
                (out.push(t), None)
            },
        }
    }
}

/// Third pass over the first `n` tokens: adjacent keywords are joined.
pub open spec fn merge_keywords(ts: Seq<TokenV>, n: int) -> Seq<TokenV>
    decreases n,
{
    if n <= 0 {
        seq![]
    } else {
        let out = merge_keywords(ts, n - 1);
        let t = ts[n - 1];
        if out.len() > 0 && out.last() is Keyword && t is Keyword {
            out.update(out.len() - 1, TokenV::Keyword(out.last()->Keyword_0 + t->Keyword_0))
        } else {
            out.push(t)
        }
    }
}

/// No escape and no quote token occurs.
pub open spec fn plain_tokens(ts: Seq<TokenV>) -> bool {
    forall|i: int|
        0 <= i < ts.len() ==> !(#[trigger] ts[i] is Escape) && !(ts[i] is TextOpen1) && !(
        ts[i] is TextOpen2)
}

/// The three passes of post-lexing; `None` where an escape precedes a keyword.
pub open spec fn post_lexed(ts: Seq<TokenV>) -> Option<Seq<TokenV>> {
    match unescape(ts, ts.len() as int) {
        None => None,
        Some((a, _)) => {
            let b = unquote(a, a.len() as int).0;
            Some(merge_keywords(b, b.len() as int))
        },
    }
}

proof fn lemma_unescape_no_escape(ts: Seq<TokenV>, n: int)
    requires
        0 <= n <= ts.len(),
    ensures
        unescape(ts, n) matches Some((out, _)) ==> forall|i: int|
            0 <= i < out.len() ==> !(#[trigger] out[i] is Escape),
    decreases n,
{
    if n > 0 {
        lemma_unescape_no_escape(ts, n - 1);
    }
}

proof fn lemma_unquote_plain(ts: Seq<TokenV>, n: int)
    requires
        0 <= n <= ts.len(),
        forall|i: int| 0 <= i < ts.len() ==> !(#[trigger] ts[i] is Escape),
    ensures
        plain_tokens(unquote(ts, n).0),
        unquote(ts, n).1 matches Some(l) ==> (l is TextOpen1 || l is TextOpen2),
    decreases n,
{
    if n > 0 {
        lemma_unquote_plain(ts, n - 1);
        let t = ts[n - 1];
        assert(!(t is Escape));
    }
}

proof fn lemma_merge_plain(ts: Seq<TokenV>, n: int)
    requires
        0 <= n <= ts.len(),
        plain_tokens(ts),
    ensures
        plain_tokens(merge_keywords(ts, n)),
    decreases n,
{
    if n > 0 {
        lemma_merge_plain(ts, n - 1);
        assert(plain_tokens(ts) ==> !(ts[n - 1] is Escape));
    }
}

proof fn lemma_post_lexed_plain(ts: Seq<TokenV>)
    ensures
        post_lexed(ts) matches Some(r) ==> plain_tokens(r),
{
    lemma_unescape_no_escape(ts, ts.len() as int);
    if let Some((a, _)) = unescape(ts, ts.len() as int) {
        lemma_unquote_plain(a, a.len() as int);
        let b = unquote(a, a.len() as int).0;
        lemma_merge_plain(b, b.len() as int);
    }
}

/// The escaping pass.
fn unescape_tokens(tokens: &Vec<Token>) -> (r: Option<Vec<Token>>)
    ensures
        match unescape(tokens_view(tokens@), tokens@.len() as int) {
            None => r is None,
            Some((out, _)) => r matches Some(v) && tokens_view(v@) == out,
        },
{
    let ghost ts = tokens_view(tokens@);
    let mut out: Vec<Token> = Vec::new();
    let mut next = false;
    let mut i: usize = 0;
    while i < tokens.len()
        invariant
            ts == tokens_view(tokens@),
            i <= tokens.len(),
            unescape(ts, i as int) == Some((tokens_view(out@), next)),
        decreases tokens.len() - i,
    {
        let t = &tokens[i];
        assert(ts[i as int] == t@);
        match t {
            Token::Escape => {
                next = true;
            },
            _ => {
                if next {
                    next = false;
                    match t.to_char() {
                        None => {
                            assert(unescape(ts, i + 1) is None);
                            proof {
                                lemma_unescape_none_stays(ts, i + 1, ts.len() as int);
                            }
                            return None;
                        },
                        Some(c) => {
                            let mut s = String::new();
                            push_char(&mut s, c);
                            assert(s@ =~= seq![c]);
                            out.push(Token::Keyword(s));
                        },
                    }
                } else {
                    out.push(t.duplicate());
                }
            },
        }
        i = i + 1;
        assert(tokens_view(out@) =~= (unescape(ts, i as int)->0).0);
    }
    Some(out)
}

proof fn lemma_unescape_none_stays(ts: Seq<TokenV>, i: int, n: int)
    requires
        0 <= i <= n,
        unescape(ts, i) is None,
    ensures
        unescape(ts, n) is None,
    decreases n - i,
{
    if n > i {
        lemma_unescape_none_stays(ts, i, n - 1);
    }
}

/// The quoting pass.
fn unquote_tokens(tokens: &Vec<Token>) -> (r: Vec<Token>)
    ensures
        tokens_view(r@) == unquote(tokens_view(tokens@), tokens@.len() as int).0,
{
    let ghost ts = tokens_view(tokens@);
    let mut out: Vec<Token> = Vec::new();
    // 0: no quote open, 1: single quote open, 2: double quote open
    let mut lock: u8 = 0;
    let mut i: usize = 0;
    while i < tokens.len()
        invariant
            ts == tokens_view(tokens@),
            i <= tokens.len(),
            lock <= 2,
            unquote(ts, i as int) == (
            tokens_view(out@),
            if lock == 0 {
                None
            } else if lock == 1 {
                Some(TokenV::TextOpen1)
            } else {
                Some(TokenV::TextOpen2)
            },
            ),
        decreases tokens.len() - i,
    {
        let t = &tokens[i];
        assert(ts[i as int] == t@);
        if lock != 0 {
            let closes = match t {
                Token::TextOpen1 => lock == 1,
                Token::TextOpen2 => lock == 2,
                _ => false,
            };
            if closes {
                lock = 0;
            } else {
                out.push(Token::Keyword(t.text()));
            }
        } else {
            match t {
                Token::TextOpen1 => {
                    lock = 1;
                },
                Token::TextOpen2 => {
                    lock = 2;
                },
                _ => {
                    out.push(t.duplicate());
                },
            }
        }
        i = i + 1;
        assert(tokens_view(out@) =~= unquote(ts, i as int).0);
    }
    out
}

/// The merging pass.
fn merge_tokens(tokens: &Vec<Token>) -> (r: Vec<Token>)
    ensures
        tokens_view(r@) == merge_keywords(tokens_view(tokens@), tokens@.len() as int),
{
    let ghost ts = tokens_view(tokens@);
    let mut out: Vec<Token> = Vec::new();
    let mut i: usize = 0;
    while i < tokens.len()
        invariant
            ts == tokens_view(tokens@),
            i <= tokens.len(),
            tokens_view(out@) == merge_keywords(ts, i as int),
        decreases tokens.len() - i,
    {
        let t = &tokens[i];
        assert(ts[i as int] == t@);
        let ghost prev = tokens_view(out@);
        let joins = match t {
            Token::Keyword(_) => out.len() > 0 && match &out[out.len() - 1] {
                Token::Keyword(_) => true,
                _ => false,
            },
            _ => false,
        };
        if joins {
            let last = out.pop().unwrap();
            match (last, t) {
                (Token::Keyword(a), Token::Keyword(b)) => {
                    let mut a = a;
                    append_str(&mut a, b.as_str());
                    out.push(Token::Keyword(a));
                },
                _ => {},
            }
        } else {
            out.push(t.duplicate());
        }
        i = i + 1;
        assert(tokens_view(out@) =~= merge_keywords(ts, i as int));
    }
    out
}

} // verus!

verus! {

// ---------------------------------------------------------------------------
// Grouping.
// ---------------------------------------------------------------------------

/// A token after escapes and quotes are resolved and groups are formed.
pub enum LessToken {
    /// ' '
    Space,
    /// '!'
    Not,
    /// ':'
    What,
    /// '|'
    Or,
    /// '&'
    And,
    Keyword(String),
}

/// Mathematical model of a [`LessToken`].
pub enum LessTokenV {
    Space,
    Not,
    What,
    Or,
    And,
    Keyword(Seq<char>),
}

impl View for LessToken {
    type V = LessTokenV;

    open spec fn view(&self) -> LessTokenV {
        match self {
            LessToken::Space => LessTokenV::Space,
            LessToken::Not => LessTokenV::Not,
            LessToken::What => LessTokenV::What,
            LessToken::Or => LessTokenV::Or,
            LessToken::And => LessTokenV::And,
            LessToken::Keyword(s) => LessTokenV::Keyword(s@),
        }
    }
}

/// A token, or a parenthesised group of tokens.
pub enum TokenGroup {
    Token(LessToken),
    Group(Vec<TokenGroup>),
}

/// Mathematical model of a [`TokenGroup`].
pub enum TokenGroupV {
    Token(LessTokenV),
    Group(Seq<TokenGroupV>),
}

/// Model of a token group.
pub open spec fn group_view(g: TokenGroup) -> TokenGroupV
    decreases g,
{
    match g {
        TokenGroup::Token(t) => TokenGroupV::Token(t@),
        TokenGroup::Group(v) => TokenGroupV::Group(groups_view(v@)),
    }
}

/// Models of a sequence of token groups.
pub open spec fn groups_view(v: Seq<TokenGroup>) -> Seq<TokenGroupV>
    decreases v,
{
    if v.len() == 0 {
        seq![]
    } else {
        groups_view(v.drop_last()).push(group_view(v.last()))
    }
}

/// The model of a pushed group sequence.
pub proof fn lemma_groups_view_push(v: Seq<TokenGroup>, g: TokenGroup)
    ensures
        groups_view(v.push(g)) == groups_view(v).push(group_view(g)),
{
    assert(v.push(g).drop_last() =~= v);
}

/// The model of a group sequence, element by element.
pub proof fn lemma_groups_view_index(v: Seq<TokenGroup>, i: int)
    requires
        0 <= i < v.len(),
    ensures
        groups_view(v).len() == v.len(),
        groups_view(v)[i] == group_view(v[i]),
    decreases v.len(),
{
    lemma_groups_view_len(v);
    if i < v.len() - 1 {
        lemma_groups_view_index(v.drop_last(), i);
    }
}

/// The model of a group sequence has its length.
pub proof fn lemma_groups_view_len(v: Seq<TokenGroup>)
    ensures
        groups_view(v).len() == v.len(),
    decreases v.len(),
{
    if v.len() > 0 {
        lemma_groups_view_len(v.drop_last());
    }
}

/// How a token moves the parenthesis depth.
pub open spec fn depth_delta(t: TokenV) -> int {
    match t {
        TokenV::GroupOpen => 1,
        TokenV::GroupClose => -1,
        _ => 0,
    }
}

/// The index, from `k` on, at which the depth `count` falls to zero; the
/// length of `s` when it never does.
pub open spec fn close_index(s: Seq<TokenV>, k: int, count: int) -> int
    decreases s.len() - k,
{
    if k >= s.len() {
        s.len() as int
    } else if count + depth_delta(s[k]) == 0 {
        k
    } else {
        close_index(s, k + 1, count + depth_delta(s[k]))
    }
}

/// The closing index lies between the start and the end.
pub proof fn lemma_close_index_bounds(s: Seq<TokenV>, k: int, count: int)
    requires
        0 <= k,
    ensures
        k <= close_index(s, k, count) <= s.len() || (k > s.len() && close_index(s, k, count)
            == s.len()),
    decreases s.len() - k,
{
    if k < s.len() && count + depth_delta(s[k]) != 0 {
        lemma_close_index_bounds(s, k + 1, count + depth_delta(s[k]));
    }
}

/// Forms groups: a `(` opens a group that runs to its matching `)` (or to
/// the end), a stray `)` is dropped, other tokens stay as they are.
pub open spec fn extracted(s: Seq<TokenV>) -> Seq<TokenGroupV>
    decreases s.len(),
{
    if s.len() == 0 {
        seq![]
    } else {
        let rest = s.drop_first();
        match s[0] {
            TokenV::Space => seq![TokenGroupV::Token(LessTokenV::Space)] + extracted(rest),
            TokenV::Not => seq![TokenGroupV::Token(LessTokenV::Not)] + extracted(rest),
            TokenV::What => seq![TokenGroupV::Token(LessTokenV::What)] + extracted(rest),
            TokenV::Or => seq![TokenGroupV::Token(LessTokenV::Or)] + extracted(rest),
            TokenV::And => seq![TokenGroupV::Token(LessTokenV::And)] + extracted(rest),
            TokenV::Keyword(k) => seq![TokenGroupV::Token(LessTokenV::Keyword(k))] + extracted(
                rest,
            ),
            TokenV::GroupOpen => {
                let j = close_index(s, 1, 1);
                proof {
                    lemma_close_index_bounds(s, 1, 1);
                }
                let after = if j < s.len() {
                    j + 1
                } else {
                    s.len() as int
                };
                seq![TokenGroupV::Group(extracted(s.subrange(1, j)))] + extracted(
                    s.subrange(after, s.len() as int),
                )
            },
            _ => extracted(rest),
        }
    }
}

/// Groups `tokens[from..to]`, which hold no escape and no quote token.
pub fn extract(tokens: &Vec<Token>, from: usize, to: usize) -> (r: Vec<TokenGroup>)
    requires
        from <= to <= tokens.len(),
        plain_tokens(tokens_view(tokens@)),
    ensures
        groups_view(r@) == extracted(tokens_view(tokens@).subrange(from as int, to as int)),
    decreases to - from,
{
    let ghost ts = tokens_view(tokens@);
    let mut out: Vec<TokenGroup> = Vec::new();
    let mut i = from;
    while i < to
        invariant
            ts == tokens_view(tokens@),
            plain_tokens(ts),
            from <= i <= to <= tokens.len(),
            extracted(ts.subrange(from as int, to as int)) == groups_view(out@) + extracted(
                ts.subrange(i as int, to as int),
            ),
        decreases to - i,
    {
        let ghost s = ts.subrange(i as int, to as int);
        let ghost prev = out@;
        let ghost i0 = i;
        assert(s[0] == tokens@[i as int]@);
        assert(s.drop_first() =~= ts.subrange(i + 1, to as int));
        match &tokens[i] {
            Token::GroupOpen => {
                let mut count: usize = 1;
                let mut j = i + 1;
                let mut found = false;
                while j < to && !found
                    invariant
                        ts == tokens_view(tokens@),
                        s == ts.subrange(i as int, to as int),
                        i < j <= to <= tokens.len(),
                        1 <= count <= j - i,
                        !found ==> close_index(s, 1, 1) == close_index(s, j - i, count as int),
                        found ==> j < to && close_index(s, 1, 1) == j - i,
                    decreases to - j + (if found { 0int } else { 1int }),
                {
                    assert(s[j - i] == tokens@[j as int]@);
                    let next = match &tokens[j] {
                        Token::GroupOpen => count + 1,
                        Token::GroupClose => count - 1,
                        _ => count,
                    };
                    if next == 0 {
                        found = true;
                    } else {
                        count = next;
                        j = j + 1;
                    }
                }
                assert(close_index(s, 1, 1) == j - i);
                let inner = extract(tokens, i + 1, j);
                assert(s.subrange(1, j - i) =~= ts.subrange(i + 1, j as int));
                proof {
                    lemma_groups_view_push(out@, TokenGroup::Group(inner));
                }
                out.push(TokenGroup::Group(inner));
                if j < to {
                    i = j + 1;
                } else {
                    i = to;
                }
                proof {
                    let after = if j < to {
                        j - i0 + 1
                    } else {
                        s.len() as int
                    };
                    assert(s.subrange(after, s.len() as int) =~= ts.subrange(i as int, to as int));
                    assert(extracted(s) == seq![group_view(TokenGroup::Group(inner))] + extracted(
                        ts.subrange(i as int, to as int),
                    ));
                }
            },
            Token::GroupClose => {
                i = i + 1;
            },
            Token::Space => {
                proof {
                    lemma_groups_view_push(out@, TokenGroup::Token(LessToken::Space));
                }
                out.push(TokenGroup::Token(LessToken::Space));
                i = i + 1;
            },
            Token::Not => {
                proof {
                    lemma_groups_view_push(out@, TokenGroup::Token(LessToken::Not));
                }
                out.push(TokenGroup::Token(LessToken::Not));
                i = i + 1;
            },
            Token::What => {
                proof {
                    lemma_groups_view_push(out@, TokenGroup::Token(LessToken::What));
                }
                out.push(TokenGroup::Token(LessToken::What));
                i = i + 1;
            },
            Token::Or => {
                proof {
                    lemma_groups_view_push(out@, TokenGroup::Token(LessToken::Or));
                }
                out.push(TokenGroup::Token(LessToken::Or));
                i = i + 1;
            },
            Token::And => {
                proof {
                    lemma_groups_view_push(out@, TokenGroup::Token(LessToken::And));
                }
                out.push(TokenGroup::Token(LessToken::And));
                i = i + 1;
            },
            Token::Keyword(k) => {
                let t = TokenGroup::Token(LessToken::Keyword(copy_string(k)));
                proof {
                    lemma_groups_view_push(out@, t);
                }
                out.push(t);
                i = i + 1;
            },
            _ => {
                assert(false);
                i = i + 1;
            },
        }
        assert(extracted(ts.subrange(from as int, to as int)) =~= groups_view(out@) + extracted(
            ts.subrange(i as int, to as int),
        ));
    }
    assert(ts.subrange(to as int, to as int) =~= seq![]);
    assert(groups_view(out@) + seq![] =~= groups_view(out@));
    out
}

} // verus!

verus! {

/// Post-lexing: resolves escapes, then quotes, joins adjacent keywords and
/// forms groups. Escaping a keyword is an error.
pub fn post_lexar(tokens: Vec<Token>) -> (r: Result<Vec<TokenGroup>, String>)
    ensures
        match post_lexed(tokens_view(tokens@)) {
            None => r matches Err(e) && e@ == "cannot escape lit"@,
            Some(m) => r matches Ok(g) && groups_view(g@) == extracted(m),
        },
{
    let a = match unescape_tokens(&tokens) {
        None => {
            return Err("cannot escape lit".to_owned());
        },
        Some(a) => a,
    };
    let b = unquote_tokens(&a);
    let c = merge_tokens(&b);
    proof {
        lemma_post_lexed_plain(tokens_view(tokens@));
        assert(tokens_view(c@).subrange(0, c@.len() as int) =~= tokens_view(c@));
    }
    Ok(extract(&c, 0, c.len()))
}

// ---------------------------------------------------------------------------
// Items.
// ---------------------------------------------------------------------------

/// A search item together with the connective (`or`: `Some(true)`, `and`:
/// `Some(false)`) that follows it.
pub struct ItemOr {
    pub data: Item,
    pub or_post: Option<bool>,
}

/// A search item: `key:value` (possibly negated), a bare word, or a group.
pub enum Item {
    DetailItem { not: bool, key: String, value: String },
    Item(String),
    Group { not: bool, or: Option<bool>, value: Vec<ItemOr> },
}

/// Mathematical model of an [`ItemOr`].
pub struct ItemOrV {
    pub data: ItemV,
    pub or_post: Option<bool>,
}

/// Mathematical model of an [`Item`].
pub enum ItemV {
    DetailItem { not: bool, key: Seq<char>, value: Seq<char> },
    Item(Seq<char>),
    Group { not: bool, or: Option<bool>, value: Seq<ItemOrV> },
}

pub open spec fn item_or_view(x: ItemOr) -> ItemOrV
    decreases x,
{
    ItemOrV { data: item_view(x.data), or_post: x.or_post }
}

pub open spec fn item_view(x: Item) -> ItemV
    decreases x,
{
    match x {
        Item::DetailItem { not, key, value } => ItemV::DetailItem { not, key: key@, value: value@ },
        Item::Item(s) => ItemV::Item(s@),
        Item::Group { not, or, value } => ItemV::Group { not, or, value: items_view(value@) },
    }
}

pub open spec fn items_view(v: Seq<ItemOr>) -> Seq<ItemOrV>
    decreases v,
{
    if v.len() == 0 {
        seq![]
    } else {
        items_view(v.drop_last()).push(item_or_view(v.last()))
    }
}

/// The model of a pushed item sequence.
pub proof fn lemma_items_view_push(v: Seq<ItemOr>, x: ItemOr)
    ensures
        items_view(v.push(x)) == items_view(v).push(item_or_view(x)),
{
    assert(v.push(x).drop_last() =~= v);
}

/// The model of an item sequence has its length.
pub proof fn lemma_items_view_len(v: Seq<ItemOr>)
    ensures
        items_view(v).len() == v.len(),
    decreases v.len(),
{
    if v.len() > 0 {
        lemma_items_view_len(v.drop_last());
    }
}

/// The model of an item sequence without its last item.
pub proof fn lemma_items_view_pop(v: Seq<ItemOr>)
    requires
        v.len() > 0,
    ensures
        items_view(v.drop_last()) == items_view(v).drop_last(),
        items_view(v).last() == item_or_view(v.last()),
{
    lemma_items_view_len(v);
}

impl ItemOr {
    /// An item with no connective after it.
    pub fn new(data: Item) -> (r: Self)
        ensures
            r.data == data,
            r.or_post is None,
    {
        Self { data, or_post: None }
    }

    /// `Some(true)` for the bare word `or`, `Some(false)` for `and`, `None`
    /// for anything else.
    pub fn is_or(&self) -> (r: Option<bool>)
        ensures
            r == connective(item_or_view(*self)),
    {
        match &self.data {
            Item::Item(v) => {
                if str_eq(v.as_str(), "or") {
                    Some(true)
                } else if str_eq(v.as_str(), "and") {
                    Some(false)
                } else {
                    None
                }
            },
            _ => None,
        }
    }
}

/// The connective a bare `or` / `and` word stands for.
pub open spec fn connective(x: ItemOrV) -> Option<bool> {
    match x.data {
        ItemV::Item(v) => if v == "or"@ {
            Some(true)
        } else if v == "and"@ {
            Some(false)
        } else {
            None
        },
        _ => None,
    }
}

/// The stage an item under construction is in.
pub enum Step {
    Beginning,
    AfterFirstWord,
    AfterDouble,
    /// After a `!` that starts no `key:value` item: a group must follow,
    /// which it negates.
    AfterNot,
    /// After `|` (`true`) or `&` (`false`): directly before a group it joins
    /// the group's items; otherwise it is the connective between two items.
    AfterJoin(bool),
}

/// An item under construction: first word, negation, second word.
pub struct ItemBuilder {
    pub part1: Option<String>,
    pub not: bool,
    pub part2: Option<String>,
    pub step: Step,
}

/// Mathematical model of an [`ItemBuilder`].
pub struct BuilderV {
    pub part1: Option<Seq<char>>,
    pub not: bool,
    pub part2: Option<Seq<char>>,
    pub step: Step,
}

pub open spec fn opt_view(o: Option<String>) -> Option<Seq<char>> {
    match o {
        Some(s) => Some(s@),
        None => None,
    }
}

impl View for ItemBuilder {
    type V = BuilderV;

    open spec fn view(&self) -> BuilderV {
        BuilderV {
            part1: opt_view(self.part1),
            not: self.not,
            part2: opt_view(self.part2),
            step: self.step,
        }
    }
}

/// The empty builder.
pub open spec fn fresh_builder() -> BuilderV {
    BuilderV { part1: None, not: false, part2: None, step: Step::Beginning }
}

pub open spec fn or_empty(o: Option<Seq<char>>) -> Seq<char> {
    match o {
        Some(s) => s,
        None => seq![],
    }
}

/// The word a connective is written as: `or` for `true`, `and` for `false`.
pub open spec fn connective_text(or: bool) -> Seq<char> {
    if or {
        "or"@
    } else {
        "and"@
    }
}

/// The item a builder holds: none at the beginning or after a `!`, a bare
/// word after the first word, `key:value` after the colon, and the
/// connective word after `|` / `&`.
pub open spec fn built(b: BuilderV) -> Option<ItemV> {
    match b.step {
        Step::Beginning => None,
        Step::AfterFirstWord => Some(ItemV::Item(or_empty(b.part1))),
        Step::AfterDouble => Some(
            ItemV::DetailItem { not: b.not, key: or_empty(b.part1), value: or_empty(b.part2) },
        ),
        Step::AfterNot => None,
        Step::AfterJoin(or) => Some(ItemV::Item(connective_text(or))),
    }
}

fn copy_opt(o: &Option<String>) -> (r: Option<String>)
    ensures
        opt_view(r) == opt_view(*o),
{
    match o {
        Some(s) => Some(copy_string(s)),
        None => None,
    }
}

fn unwrap_or_empty(o: Option<String>) -> (r: String)
    ensures
        r@ == or_empty(opt_view(o)),
{
    match o {
        Some(s) => s,
        None => String::new(),
    }
}

impl Default for ItemBuilder {
    fn default() -> (r: Self)
        ensures
            r@ == fresh_builder(),
    {
        ItemBuilder { part1: None, not: false, part2: None, step: Step::Beginning }
    }
}

impl ItemBuilder {
    /// Takes the item the builder holds, if any, and resets the builder.
    pub fn build(&mut self) -> (r: Option<Item>)
        ensures
            match built(old(self)@) {
                None => r is None,
                Some(v) => r matches Some(x) && item_view(x) == v,
            },
            final(self)@ == fresh_builder(),
    {
        let res = match self.step {
            Step::Beginning => None,
            Step::AfterFirstWord => Some(Item::Item(unwrap_or_empty(copy_opt(&self.part1)))),
            Step::AfterDouble => Some(
                Item::DetailItem {
                    not: self.not,
                    key: unwrap_or_empty(copy_opt(&self.part1)),
                    value: unwrap_or_empty(copy_opt(&self.part2)),
                },
            ),
            Step::AfterNot => None,
            Step::AfterJoin(or) => Some(Item::Item(connective_word(or))),
        };
        self.reset();
        res
    }

    /// Clears the builder.
    pub fn reset(&mut self)
        ensures
            final(self)@ == fresh_builder(),
    {
        self.not = false;
        self.part1 = None;
        self.part2 = None;
        self.step = Step::Beginning;
    }
}

} // verus!

verus! {

/// Result of building items: the items, an error message, or an input that
/// the item builder does not accept at all (an unexpected token).
pub enum Outcome<T> {
    Done(T),
    Failed(Seq<char>),
    Unexpected,
}

pub open spec fn plain_item(v: ItemV) -> ItemOrV {
    ItemOrV { data: v, or_post: None }
}

/// The connective a group prefix stands for: `or`, `and`, none, or an error.
pub open spec fn group_prefix(p: Option<Seq<char>>) -> Result<Option<bool>, Seq<char>> {
    match p {
        None => Ok(None),
        Some(v) => if v == "or"@ {
            Ok(Some(true))
        } else if v == "and"@ {
            Ok(Some(false))
        } else {
            Err(v + " is not a valid group prefix"@)
        },
    }
}

/// The builder right after `|` (`true`) or `&` (`false`).
pub open spec fn join_builder(or: bool) -> BuilderV {
    BuilderV { part1: None, not: false, part2: None, step: Step::AfterJoin(or) }
}

/// How a token starts an item when none is under construction: a space is
/// skipped, a keyword is the first word, `!` asks for a negated group, `|`
/// and `&` are pending joins; `:` cannot start an item (`None`).
pub open spec fn begin_token(b: BuilderV, t: LessTokenV) -> Option<BuilderV> {
    match t {
        LessTokenV::Space => Some(b),
        LessTokenV::Keyword(k) => Some(
            BuilderV { part1: Some(k), not: b.not, part2: b.part2, step: Step::AfterFirstWord },
        ),
        LessTokenV::Not => Some(
            BuilderV { part1: b.part1, not: true, part2: b.part2, step: Step::AfterNot },
        ),
        LessTokenV::Or => Some(
            BuilderV { part1: b.part1, not: b.not, part2: b.part2, step: Step::AfterJoin(true) },
        ),
        LessTokenV::And => Some(
            BuilderV { part1: b.part1, not: b.not, part2: b.part2, step: Step::AfterJoin(false) },
        ),
        LessTokenV::What => None,
    }
}

/// One token of the item builder: the items so far and the builder state
/// after it.
pub open spec fn token_step(res: Seq<ItemOrV>, b: BuilderV, t: LessTokenV) -> Outcome<
    (Seq<ItemOrV>, BuilderV),
> {
    match b.step {
        Step::Beginning => match begin_token(b, t) {
            Some(nb) => Outcome::Done((res, nb)),
            None => Outcome::Unexpected,
        },
        Step::AfterFirstWord => match t {
            LessTokenV::Space => Outcome::Done((res.push(plain_item(built(b)->0)), fresh_builder())),
            LessTokenV::What => Outcome::Done(
                (
                    res,
                    BuilderV {
                        part1: b.part1,
                        not: b.not,
                        part2: b.part2,
                        step: Step::AfterDouble,
                    },
                ),
            ),
            LessTokenV::Or => Outcome::Done((res.push(plain_item(built(b)->0)), join_builder(true))),
            LessTokenV::And => Outcome::Done(
                (res.push(plain_item(built(b)->0)), join_builder(false)),
            ),
            _ => Outcome::Unexpected,
        },
        Step::AfterDouble => match t {
            LessTokenV::Not => Outcome::Done(
                (res, BuilderV { part1: b.part1, not: true, part2: b.part2, step: b.step }),
            ),
            LessTokenV::Keyword(k) => {
                let b2 = BuilderV { part1: b.part1, not: b.not, part2: Some(k), step: b.step };
                Outcome::Done((res.push(plain_item(built(b2)->0)), fresh_builder()))
            },
            _ => Outcome::Unexpected,
        },
        Step::AfterNot => match t {
            LessTokenV::Or => Outcome::Done(
                (
                    res,
                    BuilderV {
                        part1: b.part1,
                        not: b.not,
                        part2: b.part2,
                        step: Step::AfterJoin(true),
                    },
                ),
            ),
            LessTokenV::And => Outcome::Done(
                (
                    res,
                    BuilderV {
                        part1: b.part1,
                        not: b.not,
                        part2: b.part2,
                        step: Step::AfterJoin(false),
                    },
                ),
            ),
            _ => Outcome::Unexpected,
        },
        Step::AfterJoin(_) => if b.not {
            Outcome::Unexpected
        } else {
            match begin_token(fresh_builder(), t) {
                Some(nb) => Outcome::Done((res.push(plain_item(built(b)->0)), nb)),
                None => Outcome::Unexpected,
            }
        },
    }
}

/// A group closing the item under construction, given the items of the
/// group.
pub open spec fn closed_group(
    res: Seq<ItemOrV>,
    not: bool,
    or: Option<bool>,
    inner: Outcome<Seq<ItemOrV>>,
) -> Outcome<(Seq<ItemOrV>, BuilderV)> {
    match inner {
        Outcome::Done(r) => Outcome::Done(
            (res.push(plain_item(ItemV::Group { not, or, value: r })), fresh_builder()),
        ),
        Outcome::Failed(e) => Outcome::Failed(e),
        Outcome::Unexpected => Outcome::Unexpected,
    }
}

/// One group of the item builder, given the items of the group: a plain
/// group at the beginning or after a word, a group prefixed by `key:`
/// (`or:` / `and:`, possibly negated), by `!`, or by `|` / `&`.
pub open spec fn group_step(res: Seq<ItemOrV>, b: BuilderV, inner: Outcome<Seq<ItemOrV>>) -> Outcome<
    (Seq<ItemOrV>, BuilderV),
> {
    match b.step {
        Step::Beginning => match inner {
            Outcome::Done(r) => Outcome::Done(
                (res.push(plain_item(ItemV::Group { not: false, or: None, value: r })), b),
            ),
            Outcome::Failed(e) => Outcome::Failed(e),
            Outcome::Unexpected => Outcome::Unexpected,
        },
        Step::AfterFirstWord => closed_group(
            res.push(plain_item(built(b)->0)),
            false,
            None,
            inner,
        ),
        Step::AfterDouble => match group_prefix(b.part1) {
            Err(e) => Outcome::Failed(e),
            Ok(or) => closed_group(res, b.not, or, inner),
        },
        Step::AfterNot => closed_group(res, b.not, None, inner),
        Step::AfterJoin(or) => closed_group(res, b.not, Some(or), inner),
    }
}

/// Builds items from the first `n` groups, left to right, with the builder
/// state after them.
pub open spec fn scan(gs: Seq<TokenGroupV>, n: int) -> Outcome<(Seq<ItemOrV>, BuilderV)>
    decreases gs, 0int, n,
{
    if n <= 0 || n > gs.len() {
        Outcome::Done((seq![], fresh_builder()))
    } else {
        match scan(gs, n - 1) {
            Outcome::Failed(e) => Outcome::Failed(e),
            Outcome::Unexpected => Outcome::Unexpected,
            Outcome::Done((res, b)) => match gs[n - 1] {
                TokenGroupV::Token(t) => token_step(res, b, t),
                TokenGroupV::Group(v) => {
                    proof {
                        assert(decreases_to!(gs => gs[n - 1]));
                    }
                    group_step(res, b, parse_items(v))
                },
            },
        }
    }
}

/// Folds the bare words `or` / `and` into the connective of the item before
/// them, over the first `n` items. A connective with no item before it stays
/// a word; a second connective after the same item becomes a word again.
pub open spec fn fold_connectives(items: Seq<ItemOrV>, n: int) -> Seq<ItemOrV>
    decreases n,
{
    if n <= 0 || n > items.len() {
        seq![]
    } else {
        let new = fold_connectives(items, n - 1);
        let item = items[n - 1];
        match connective(item) {
            Some(or) => if new.len() > 0 {
                if new.last().or_post is Some {
                    new.push(
                        ItemOrV {
                            data: ItemV::Item(
                                if or {
                                    "or"@
                                } else {
                                    "and"@
                                },
                            ),
                            or_post: None,
                        },
                    )
                } else {
                    new.update(new.len() - 1, ItemOrV { data: new.last().data, or_post: Some(or) })
                }
            } else {
                new.push(item)
            },
            None => new.push(item),
        }
    }
}

/// A builder that the end of a group leaves waiting for a group: after a
/// `!`, or after `!|` / `!&`.
pub open spec fn dangling(b: BuilderV) -> bool {
    b.step is AfterNot || (b.step is AfterJoin && b.not)
}

/// Items of a group sequence; a trailing `|` / `&` is a connective.
pub open spec fn parse_items(gs: Seq<TokenGroupV>) -> Outcome<Seq<ItemOrV>>
    decreases gs, 1int, 0int,
{
    match scan(gs, gs.len() as int) {
        Outcome::Done((res, b)) => if dangling(b) {
            Outcome::Unexpected
        } else {
            let all = match built(b) {
                Some(v) => res.push(plain_item(v)),
                None => res,
            };
            Outcome::Done(fold_connectives(all, all.len() as int))
        },
        Outcome::Failed(e) => Outcome::Failed(e),
        Outcome::Unexpected => Outcome::Unexpected,
    }
}

} // verus!

verus! {

/// The model of an item sequence, element by element.
pub proof fn lemma_items_view_index(v: Seq<ItemOr>, i: int)
    requires
        0 <= i < v.len(),
    ensures
        items_view(v).len() == v.len(),
        items_view(v)[i] == item_or_view(v[i]),
    decreases v.len(),
{
    lemma_items_view_len(v);
    if i < v.len() - 1 {
        lemma_items_view_index(v.drop_last(), i);
    }
}

fn connective_word(or: bool) -> (r: String)
    ensures
        r@ == connective_text(or),
{
    if or {
        "or".to_owned()
    } else {
        "and".to_owned()
    }
}

/// Folds `or` / `and` words into the connective of the item before them.
pub fn fold_connectives_of(items: Vec<ItemOr>) -> (r: Vec<ItemOr>)
    ensures
        items_view(r@) == fold_connectives(items_view(items@), items@.len() as int),
{
    let ghost orig = items@;
    let ghost ov = items_view(orig);
    proof {
        lemma_items_view_len(orig);
    }
    let mut rest = items;
    let mut new: Vec<ItemOr> = Vec::new();
    let ghost mut i: int = 0;
    assert(orig.subrange(0, orig.len() as int) =~= orig);
    while rest.len() > 0
        invariant
            0 <= i <= orig.len(),
            ov == items_view(orig),
            ov.len() == orig.len(),
            rest@ == orig.subrange(i, orig.len() as int),
            items_view(new@) == fold_connectives(ov, i),
        decreases rest.len(),
    {
        let item = rest.remove(0);
        proof {
            lemma_items_view_index(orig, i);
            assert(item == orig[i]);
            assert(rest@ =~= orig.subrange(i + 1, orig.len() as int));
        }
        let c = item.is_or();
        let ghost fprev = fold_connectives(ov, i);
        match c {
            Some(or) => {
                if new.len() > 0 {
                    let mut last = new.pop().unwrap();
                    proof {
                        lemma_items_view_pop(new@.push(last));
                        assert(new@.push(last).drop_last() =~= new@);
                        lemma_items_view_len(new@.push(last));
                    }
                    if last.or_post.is_some() {
                        proof {
                            lemma_items_view_push(new@, last);
                        }
                        new.push(last);
                        let w = ItemOr { data: Item::Item(connective_word(or)), or_post: None };
                        proof {
                            lemma_items_view_push(new@, w);
                        }
                        new.push(w);
                    } else {
                        last.or_post = Some(or);
                        proof {
                            lemma_items_view_push(new@, last);
                        }
                        new.push(last);
                        assert(items_view(new@) =~= fprev.update(
                            fprev.len() - 1,
                            ItemOrV { data: fprev.last().data, or_post: Some(or) },
                        ));
                    }
                } else {
                    proof {
                        lemma_items_view_push(new@, item);
                    }
                    new.push(item);
                }
            },
            None => {
                proof {
                    lemma_items_view_push(new@, item);
                }
                new.push(item);
            },
        }
        proof {
            i = i + 1;
        }
    }
    new
}

/// Executable counterpart of [`Outcome`].
pub enum Extraction {
    Items(Vec<ItemOr>),
    Invalid(String),
    Unexpected,
}

pub open spec fn extraction_view(r: Extraction) -> Outcome<Seq<ItemOrV>> {
    match r {
        Extraction::Items(v) => Outcome::Done(items_view(v@)),
        Extraction::Invalid(e) => Outcome::Failed(e@),
        Extraction::Unexpected => Outcome::Unexpected,
    }
}

proof fn lemma_scan_stops(gs: Seq<TokenGroupV>, i: int, n: int)
    requires
        0 <= i <= n <= gs.len(),
        !(scan(gs, i) is Done),
    ensures
        scan(gs, n) == scan(gs, i),
    decreases n - i,
{
    if n > i {
        lemma_scan_stops(gs, i, n - 1);
    }
}

fn prefix_of(p: &Option<String>) -> (r: Result<Option<bool>, String>)
    ensures
        match group_prefix(opt_view(*p)) {
            Ok(o) => r == Ok::<Option<bool>, String>(o),
            Err(e) => r matches Err(m) && m@ == e,
        },
{
    match p {
        None => Ok(None),
        Some(v) => {
            if str_eq(v.as_str(), "or") {
                Ok(Some(true))
            } else if str_eq(v.as_str(), "and") {
                Ok(Some(false))
            } else {
                let mut m = copy_string(v);
                append_str(&mut m, " is not a valid group prefix");
                Err(m)
            }
        },
    }
}

/// Applies [`begin_token`] to the builder; `false` where the token cannot
/// start an item.
fn begin(b: &mut ItemBuilder, t: &LessToken) -> (ok: bool)
    ensures
        match begin_token(old(b)@, t@) {
            Some(nb) => ok && final(b)@ == nb,
            None => !ok,
        },
{
    match t {
        LessToken::Space => true,
        LessToken::Keyword(k) => {
            b.part1 = Some(copy_string(k));
            b.step = Step::AfterFirstWord;
            true
        },
        LessToken::Not => {
            b.not = true;
            b.step = Step::AfterNot;
            true
        },
        LessToken::Or => {
            b.step = Step::AfterJoin(true);
            true
        },
        LessToken::And => {
            b.step = Step::AfterJoin(false);
            true
        },
        LessToken::What => false,
    }
}

/// Applies [`token_step`]; `false` where the token is unexpected.
fn step_token(res: &mut Vec<ItemOr>, b: &mut ItemBuilder, t: &LessToken) -> (ok: bool)
    ensures
        match token_step(items_view(old(res)@), old(b)@, t@) {
            Outcome::Done((r, nb)) => ok && items_view(final(res)@) == r && final(b)@ == nb,
            _ => !ok,
        },
{
    match b.step {
        Step::Beginning => begin(b, t),
        Step::AfterFirstWord => {
            match t {
                LessToken::Space => {
                    let x = ItemOr::new(b.build().unwrap());
                    proof {
                        lemma_items_view_push(res@, x);
                    }
                    res.push(x);
                    true
                },
                LessToken::What => {
                    b.step = Step::AfterDouble;
                    true
                },
                LessToken::Or => {
                    let x = ItemOr::new(b.build().unwrap());
                    proof {
                        lemma_items_view_push(res@, x);
                    }
                    res.push(x);
                    b.step = Step::AfterJoin(true);
                    true
                },
                LessToken::And => {
                    let x = ItemOr::new(b.build().unwrap());
                    proof {
                        lemma_items_view_push(res@, x);
                    }
                    res.push(x);
                    b.step = Step::AfterJoin(false);
                    true
                },
                _ => false,
            }
        },
        Step::AfterDouble => {
            match t {
                LessToken::Not => {
                    b.not = true;
                    true
                },
                LessToken::Keyword(k) => {
                    b.part2 = Some(copy_string(k));
                    let x = ItemOr::new(b.build().unwrap());
                    proof {
                        lemma_items_view_push(res@, x);
                    }
                    res.push(x);
                    true
                },
                _ => false,
            }
        },
        Step::AfterNot => {
            match t {
                LessToken::Or => {
                    b.step = Step::AfterJoin(true);
                    true
                },
                LessToken::And => {
                    b.step = Step::AfterJoin(false);
                    true
                },
                _ => false,
            }
        },
        Step::AfterJoin(_) => {
            if b.not {
                false
            } else {
                let x = ItemOr::new(b.build().unwrap());
                proof {
                    lemma_items_view_push(res@, x);
                }
                res.push(x);
                begin(b, t)
            }
        },
    }
}

/// Builds items from token groups (nested groups recursively), then folds
/// connectives.
pub fn extract_items(groups: &Vec<TokenGroup>) -> (r: Extraction)
    ensures
        extraction_view(r) == parse_items(groups_view(groups@)),
    decreases groups@,
{
    let ghost gs = groups_view(groups@);
    proof {
        lemma_groups_view_len(groups@);
    }
    let mut res: Vec<ItemOr> = Vec::new();
    let mut b = ItemBuilder::default();
    let mut i: usize = 0;
    while i < groups.len()
        invariant
            gs == groups_view(groups@),
            gs.len() == groups@.len(),
            i <= groups.len(),
            scan(gs, i as int) == Outcome::Done((items_view(res@), b@)),
        decreases groups.len() - i,
    {
        proof {
            lemma_groups_view_index(groups@, i as int);
        }
        match &groups[i] {
            TokenGroup::Token(t) => {
                if !step_token(&mut res, &mut b, t) {
                    proof {
                        lemma_scan_stops(gs, i + 1, gs.len() as int);
                    }
                    return Extraction::Unexpected;
                }
            },
            TokenGroup::Group(v) => {
                let prefix: Option<bool> = match b.step {
                    Step::AfterDouble => match prefix_of(&b.part1) {
                        Ok(or) => or,
                        Err(e) => {
                            proof {
                                lemma_scan_stops(gs, i + 1, gs.len() as int);
                            }
                            return Extraction::Invalid(e);
                        },
                    },
                    Step::AfterJoin(or) => Some(or),
                    _ => None,
                };
                let inner = match extract_items(v) {
                    Extraction::Items(r) => r,
                    Extraction::Invalid(e) => {
                        proof {
                            lemma_scan_stops(gs, i + 1, gs.len() as int);
                        }
                        return Extraction::Invalid(e);
                    },
                    Extraction::Unexpected => {
                        proof {
                            lemma_scan_stops(gs, i + 1, gs.len() as int);
                        }
                        return Extraction::Unexpected;
                    },
                };
                match b.step {
                    Step::Beginning => {
                        let x = ItemOr::new(Item::Group { not: false, or: None, value: inner });
                        proof {
                            lemma_items_view_push(res@, x);
                        }
                        res.push(x);
                    },
                    Step::AfterFirstWord => {
                        let x = ItemOr::new(b.build().unwrap());
                        proof {
                            lemma_items_view_push(res@, x);
                        }
                        res.push(x);
                        let y = ItemOr::new(Item::Group { not: false, or: None, value: inner });
                        proof {
                            lemma_items_view_push(res@, y);
                        }
                        res.push(y);
                    },
                    _ => {
                        let x = ItemOr::new(Item::Group { not: b.not, or: prefix, value: inner });
                        proof {
                            lemma_items_view_push(res@, x);
                        }
                        res.push(x);
                        b.reset();
                    },
                }
            },
        }
        i = i + 1;
    }
    let dangles = match b.step {
        Step::AfterNot => true,
        Step::AfterJoin(_) => b.not,
        _ => false,
    };
    if dangles {
        return Extraction::Unexpected;
    }
    let last = b.build();
    match last {
        Some(v) => {
            let x = ItemOr::new(v);
            proof {
                lemma_items_view_push(res@, x);
            }
            res.push(x);
        },
        None => {},
    }
    proof {
        lemma_items_view_len(res@);
    }
    Extraction::Items(fold_connectives_of(res))

}

} // verus!

verus! {

/// Builds the items of a group sequence. The caller excludes the token
/// sequences that the item builder does not accept (a `:` where no item is
/// under construction, a `!` that neither follows `key:` nor comes before a
/// group, two keywords in a row, a space, `|` or a second `:` after a
/// colon).
pub fn extract2(groups: Vec<TokenGroup>) -> (r: Result<Vec<ItemOr>, String>)
    requires
        !(parse_items(groups_view(groups@)) is Unexpected),
    ensures
        match parse_items(groups_view(groups@)) {
            Outcome::Done(items) => r matches Ok(v) && items_view(v@) == items,
            Outcome::Failed(e) => r matches Err(m) && m@ == e,
            Outcome::Unexpected => false,
        },
{
    match extract_items(&groups) {
        Extraction::Items(v) => Ok(v),
        Extraction::Invalid(e) => Err(e),
        Extraction::Unexpected => Err(String::new()),
    }
}

/// What a query text parses to: lexing, post-lexing, then item building.
pub open spec fn query_outcome(s: Seq<char>) -> Outcome<Seq<ItemOrV>> {
    match post_lexed(lexed(s)) {
        None => Outcome::Failed("cannot escape lit"@),
        Some(m) => parse_items(extracted(m)),
    }
}

/// Parses a search query into items: words, `key:value` and `key:!value`
/// items, groups in parentheses; `|` (or the word `or`) and `&` (or `and`)
/// between items become the connective after the item before them; `!(..)`
/// is a negated group, `|(..)` and `&(..)` join the group's items with or /
/// and. `None` stands for a query that holds a token where the item builder
/// accepts none; `Some(Err(..))` carries the parse error.
pub fn parse_query(s: &str) -> (r: Option<Result<Vec<ItemOr>, String>>)
    ensures
        match query_outcome(s@) {
            Outcome::Done(items) => r matches Some(Ok(v)) && items_view(v@) == items,
            Outcome::Failed(e) => r matches Some(Err(m)) && m@ == e,
            Outcome::Unexpected => r is None,
        },
{
    let tokens = lexar(s);
    let groups = match post_lexar(tokens) {
        Ok(g) => g,
        Err(e) => {
            return Some(Err(e));
        },
    };
    match extract_items(&groups) {
        Extraction::Items(v) => Some(Ok(v)),
        Extraction::Invalid(e) => Some(Err(e)),
        Extraction::Unexpected => None,
    }
}

/// The text a sequence of tokens spells.
pub open spec fn tokens_text(ts: Seq<TokenV>) -> Seq<char>
    decreases ts.len(),
{
    if ts.len() == 0 {
        seq![]
    } else {
        tokens_text(ts.drop_last()) + token_text(ts.last())
    }
}

proof fn lemma_token_text_lex(c: char)
    ensures
        token_text(lex_char(c)) == seq![c],
{
}

/// Lexing loses nothing: the tokens of a query spell the query.
pub proof fn lemma_lex_spells_query(s: Seq<char>)
    ensures
        tokens_text(lexed(s)) == s,
    decreases s.len(),
{
    if s.len() > 0 {
        lemma_lex_spells_query(s.drop_last());
        assert(lexed(s).drop_last() =~= lexed(s.drop_last()));
        lemma_token_text_lex(s.last());
        assert(s.drop_last() + seq![s.last()] =~= s);
    } else {
        assert(lexed(s) =~= Seq::<TokenV>::empty());
    }
}

proof fn lemma_unescape_plain(ts: Seq<TokenV>, n: int)
    requires
        0 <= n <= ts.len(),
        forall|i: int| 0 <= i < ts.len() ==> !(#[trigger] ts[i] is Escape),
    ensures
        unescape(ts, n) == Some((ts.take(n), false)),
    decreases n,
{
    if n > 0 {
        lemma_unescape_plain(ts, n - 1);
        assert(ts.take(n - 1).push(ts[n - 1]) =~= ts.take(n));
    } else {
        assert(ts.take(0) =~= Seq::<TokenV>::empty());
    }
}

proof fn lemma_unquote_inside(ts: Seq<TokenV>, k: int)
    requires
        2 <= ts.len(),
        ts[0] == TokenV::TextOpen2,
        forall|i: int| 1 <= i < ts.len() - 1 ==> (#[trigger] ts[i]) != TokenV::TextOpen2,
        1 <= k <= ts.len() - 1,
    ensures
        unquote(ts, k) == (
            Seq::new((k - 1) as nat, |j: int| TokenV::Keyword(token_text(ts[j + 1]))),
            Some(TokenV::TextOpen2),
        ),
    decreases k,
{
    if k == 1 {
        assert(unquote(ts, 0) == (Seq::<TokenV>::empty(), None::<TokenV>));
        assert(Seq::new(0, |j: int| TokenV::Keyword(token_text(ts[j + 1]))) =~= Seq::<
            TokenV,
        >::empty());
    } else {
        lemma_unquote_inside(ts, k - 1);
        assert(ts[k - 1] != TokenV::TextOpen2);
        assert(Seq::new((k - 2) as nat, |j: int| TokenV::Keyword(token_text(ts[j + 1]))).push(
            TokenV::Keyword(token_text(ts[k - 1])),
        ) =~= Seq::new((k - 1) as nat, |j: int| TokenV::Keyword(token_text(ts[j + 1]))));
    }
}

proof fn lemma_merge_chars(w: Seq<char>, n: int)
    requires
        1 <= n <= w.len(),
    ensures
        merge_keywords(Seq::new(w.len(), |j: int| TokenV::Keyword(seq![w[j]])), n) == seq![
            TokenV::Keyword(w.take(n)),
        ],
    decreases n,
{
    let b = Seq::new(w.len(), |j: int| TokenV::Keyword(seq![w[j]]));
    if n == 1 {
        assert(merge_keywords(b, 0) == Seq::<TokenV>::empty());
        assert(w.take(1) =~= seq![w[0]]);
        assert(seq![b[0]] =~= seq![TokenV::Keyword(w.take(1))]);
    } else {
        lemma_merge_chars(w, n - 1);
        assert(w.take(n - 1) + seq![w[n - 1]] =~= w.take(n));
        assert(seq![TokenV::Keyword(w.take(n - 1))].update(0, TokenV::Keyword(w.take(n)))
            =~= seq![TokenV::Keyword(w.take(n))]);
    }
}

/// A phrase in double quotes is one word: any text without `"` and `\`
/// between double quotes parses to the single search word of that text
/// (spaces, parentheses, `!` and `:` included).
pub proof fn lemma_quoted_phrase(w: Seq<char>)
    requires
        w.len() > 0,
        forall|i: int| 0 <= i < w.len() ==> #[trigger] w[i] != '"' && w[i] != '\\',
    ensures
        query_outcome(seq!['"'] + w + seq!['"']) == Outcome::Done(
            seq![ItemOrV { data: ItemV::Item(w), or_post: None }],
        ),
{
    let q = seq!['"'] + w + seq!['"'];
    let ts = lexed(q);
    let n = ts.len() as int;
    assert(n == w.len() + 2);
    assert forall|i: int| 0 <= i < ts.len() implies !(#[trigger] ts[i] is Escape) by {
        if 1 <= i < n - 1 {
            assert(q[i] == w[i - 1]);
        }
    }
    lemma_unescape_plain(ts, n);
    assert(ts.take(n) =~= ts);
    assert(ts[0] == TokenV::TextOpen2);
    assert(ts[n - 1] == TokenV::TextOpen2);
    assert forall|i: int| 1 <= i < ts.len() - 1 implies (#[trigger] ts[i]) != TokenV::TextOpen2 by {
        assert(q[i] == w[i - 1]);
    }
    lemma_unquote_inside(ts, n - 1);
    let b = Seq::new(w.len(), |j: int| TokenV::Keyword(seq![w[j]]));
    assert forall|j: int| 0 <= j < w.len() implies token_text(ts[j + 1]) == seq![w[j]] by {
        assert(q[j + 1] == w[j]);
        lemma_token_text_lex(w[j]);
    }
    assert(Seq::new((n - 2) as nat, |j: int| TokenV::Keyword(token_text(ts[j + 1]))) =~= b);
    assert(unquote(ts, n).0 == b);
    lemma_merge_chars(w, w.len() as int);
    assert(w.take(w.len() as int) =~= w);
    let m = seq![TokenV::Keyword(w)];
    assert(post_lexed(ts) == Some(m));
    assert(m.drop_first() =~= Seq::<TokenV>::empty());
    assert(extracted(m.drop_first()) =~= Seq::<TokenGroupV>::empty());
    assert(extracted(m) =~= seq![TokenGroupV::Token(LessTokenV::Keyword(w))]);
    let gs = seq![TokenGroupV::Token(LessTokenV::Keyword(w))];
    assert(scan(gs, 0) == Outcome::Done((Seq::<ItemOrV>::empty(), fresh_builder())));
    let item = ItemOrV { data: ItemV::Item(w), or_post: None };
    assert(fold_connectives(seq![item], 0) == Seq::<ItemOrV>::empty());
    assert(Seq::<ItemOrV>::empty().push(item) =~= seq![item]);
}

/// Building empties the builder: a second build right after gives nothing.
pub proof fn lemma_build_empties()
    ensures
        built(fresh_builder()) is None,
{
}

/// A character that lexes to a keyword of itself.
pub open spec fn plain_char(c: char) -> bool {
    lex_char(c) == TokenV::Keyword(seq![c])
}

/// A non-empty word of plain characters.
pub open spec fn plain_word(w: Seq<char>) -> bool {
    w.len() > 0 && forall|i: int| 0 <= i < w.len() ==> plain_char(#[trigger] w[i])
}

/// The one-character keywords of a word.
pub open spec fn char_keywords(w: Seq<char>) -> Seq<TokenV> {
    Seq::new(w.len(), |j: int| TokenV::Keyword(seq![w[j]]))
}

proof fn lemma_unquote_id(ts: Seq<TokenV>, n: int)
    requires
        0 <= n <= ts.len(),
        forall|i: int| 0 <= i < ts.len() ==> !(#[trigger] ts[i] is TextOpen1) && !(ts[i] is TextOpen2),
    ensures
        unquote(ts, n) == (ts.take(n), None::<TokenV>),
    decreases n,
{
    if n > 0 {
        lemma_unquote_id(ts, n - 1);
        assert(ts.take(n - 1).push(ts[n - 1]) =~= ts.take(n));
    } else {
        assert(ts.take(0) =~= Seq::<TokenV>::empty());
    }
}

proof fn lemma_merge_agree(ts: Seq<TokenV>, us: Seq<TokenV>, n: int)
    requires
        0 <= n <= ts.len(),
        n <= us.len(),
        forall|j: int| 0 <= j < n ==> #[trigger] ts[j] == us[j],
    ensures
        merge_keywords(ts, n) == merge_keywords(us, n),
    decreases n,
{
    if n > 0 {
        lemma_merge_agree(ts, us, n - 1);
    }
}

/// Merging splits where a keyword does not meet a keyword.
proof fn lemma_merge_split(ts: Seq<TokenV>, i: int, n: int)
    requires
        0 < i <= n <= ts.len(),
        i < ts.len() ==> !(ts[i - 1] is Keyword) || !(ts[i] is Keyword),
    ensures
        merge_keywords(ts, n) == merge_keywords(ts, i) + merge_keywords(
            ts.subrange(i, ts.len() as int),
            n - i,
        ),
        n > i ==> merge_keywords(ts.subrange(i, ts.len() as int), n - i).len() > 0,
    decreases n,
{
    let sub = ts.subrange(i, ts.len() as int);
    let m = merge_keywords(ts, i);
    if n == i {
        assert(merge_keywords(sub, 0) == Seq::<TokenV>::empty());
        assert(m + Seq::<TokenV>::empty() =~= m);
    } else {
        lemma_merge_split(ts, i, n - 1);
        let r = merge_keywords(sub, n - 1 - i);
        let t = ts[n - 1];
        assert(sub[n - 1 - i] == t);
        if n - 1 == i {
            assert(r == Seq::<TokenV>::empty());
            assert(merge_keywords(ts, i) == {
                let out = merge_keywords(ts, i - 1);
                let u = ts[i - 1];
                if out.len() > 0 && out.last() is Keyword && u is Keyword {
                    out.update(out.len() - 1, TokenV::Keyword(out.last()->Keyword_0 + u->Keyword_0))
                } else {
                    out.push(u)
                }
            });
            if !(ts[i - 1] is Keyword) {
                assert(m.last() == ts[i - 1]);
            }
            assert(merge_keywords(sub, 1) =~= seq![t]);
            assert(merge_keywords(ts, n) =~= m + seq![t]);
        } else {
            assert(r.len() > 0);
            assert((m + r).last() == r.last());
            if r.last() is Keyword && t is Keyword {
                assert(merge_keywords(ts, n) =~= m + r.update(
                    r.len() - 1,
                    TokenV::Keyword(r.last()->Keyword_0 + t->Keyword_0),
                ));
            } else {
                assert(merge_keywords(ts, n) =~= m + r.push(t));
            }
        }
    }
}

/// The tokens of `w1 | w2` (or `w1 & w2`) after post-lexing.
proof fn lemma_post_lexed_join(w1: Seq<char>, w2: Seq<char>, or: bool)
    requires
        plain_word(w1),
        plain_word(w2),
    ensures
        post_lexed(lexed(w1 + seq![' ', if or { '|' } else { '&' }, ' '] + w2)) == Some(
            seq![
                TokenV::Keyword(w1),
                TokenV::Space,
                if or { TokenV::Or } else { TokenV::And },
                TokenV::Space,
                TokenV::Keyword(w2),
            ],
        ),
{
    let c = if or { '|' } else { '&' };
    let tc = if or { TokenV::Or } else { TokenV::And };
    let q = w1 + seq![' ', c, ' '] + w2;
    let l1 = w1.len() as int;
    let l2 = w2.len() as int;
    let ts = lexed(q);
    let n = ts.len() as int;
    let mid = seq![TokenV::Space, tc, TokenV::Space];
    assert(ts =~= char_keywords(w1) + mid + char_keywords(w2)) by {
        assert forall|i: int| 0 <= i < n implies #[trigger] ts[i] == (char_keywords(w1) + mid
            + char_keywords(w2))[i] by {
            if i < l1 {
                assert(q[i] == w1[i]);
                assert(plain_char(w1[i]));
            } else if i >= l1 + 3 {
                assert(q[i] == w2[i - l1 - 3]);
                assert(plain_char(w2[i - l1 - 3]));
            } else {
                assert(q[i] == seq![' ', c, ' '][i - l1]);
            }
        }
    }
    assert forall|i: int| 0 <= i < ts.len() implies !(#[trigger] ts[i] is Escape) by {}
    lemma_unescape_plain(ts, n);
    assert(ts.take(n) =~= ts);
    lemma_unquote_id(ts, n);
    // merge, one piece at a time
    lemma_merge_split(ts, l1, n);
    lemma_merge_agree(ts, char_keywords(w1), l1);
    lemma_merge_chars(w1, l1);
    assert(w1.take(l1) =~= w1);
    let s1 = ts.subrange(l1, n);
    assert(s1 =~= mid + char_keywords(w2));
    lemma_merge_split(s1, 1, s1.len() as int);
    let s2 = s1.subrange(1, s1.len() as int);
    assert(s2 =~= seq![tc, TokenV::Space] + char_keywords(w2));
    lemma_merge_split(s2, 1, s2.len() as int);
    let s3 = s2.subrange(1, s2.len() as int);
    assert(s3 =~= seq![TokenV::Space] + char_keywords(w2));
    lemma_merge_split(s3, 1, s3.len() as int);
    let s4 = s3.subrange(1, s3.len() as int);
    assert(s4 =~= char_keywords(w2));
    lemma_merge_chars(w2, l2);
    assert(w2.take(l2) =~= w2);
    assert(s1[0] == TokenV::Space);
    assert(merge_keywords(s1, 0) == Seq::<TokenV>::empty());
    assert(merge_keywords(s1, 1) =~= seq![TokenV::Space]);
    assert(s2[0] == tc);
    assert(merge_keywords(s2, 0) == Seq::<TokenV>::empty());
    assert(merge_keywords(s2, 1) =~= seq![tc]);
    assert(s3[0] == TokenV::Space);
    assert(merge_keywords(s3, 0) == Seq::<TokenV>::empty());
    assert(merge_keywords(s3, 1) =~= seq![TokenV::Space]);
    assert(merge_keywords(ts, n) =~= seq![
        TokenV::Keyword(w1),
        TokenV::Space,
        tc,
        TokenV::Space,
        TokenV::Keyword(w2),
    ]);
}

/// `|` is or and `&` is and: two words with ` | ` (` & `) between them parse
/// to the first word joined by or (and) to the second.
pub proof fn lemma_join_words(w1: Seq<char>, w2: Seq<char>, or: bool)
    requires
        plain_word(w1),
        plain_word(w2),
    ensures
        query_outcome(w1 + seq![' ', if or { '|' } else { '&' }, ' '] + w2) == Outcome::Done(
            seq![
                ItemOrV { data: ItemV::Item(w1), or_post: Some(or) },
                ItemOrV { data: ItemV::Item(w2), or_post: None },
            ],
        ),
{
    lemma_post_lexed_join(w1, w2, or);
    let tc = if or { TokenV::Or } else { TokenV::And };
    let lc = if or { LessTokenV::Or } else { LessTokenV::And };
    let m = seq![TokenV::Keyword(w1), TokenV::Space, tc, TokenV::Space, TokenV::Keyword(w2)];
    let m4 = m.drop_first();
    let m3 = m4.drop_first();
    let m2 = m3.drop_first();
    let m1 = m2.drop_first();
    let m0 = m1.drop_first();
    assert(m0 =~= Seq::<TokenV>::empty());
    assert(extracted(m0) == Seq::<TokenGroupV>::empty());
    assert(m1 =~= seq![TokenV::Keyword(w2)]);
    assert(extracted(m1) =~= seq![TokenGroupV::Token(LessTokenV::Keyword(w2))]);
    assert(m2 =~= seq![TokenV::Space, TokenV::Keyword(w2)]);
    assert(extracted(m2) =~= seq![
        TokenGroupV::Token(LessTokenV::Space),
        TokenGroupV::Token(LessTokenV::Keyword(w2)),
    ]);
    assert(m3 =~= seq![tc, TokenV::Space, TokenV::Keyword(w2)]);
    assert(extracted(m3) =~= seq![
        TokenGroupV::Token(lc),
        TokenGroupV::Token(LessTokenV::Space),
        TokenGroupV::Token(LessTokenV::Keyword(w2)),
    ]);
    assert(m4 =~= seq![TokenV::Space, tc, TokenV::Space, TokenV::Keyword(w2)]);
    assert(extracted(m4) =~= seq![
        TokenGroupV::Token(LessTokenV::Space),
        TokenGroupV::Token(lc),
        TokenGroupV::Token(LessTokenV::Space),
        TokenGroupV::Token(LessTokenV::Keyword(w2)),
    ]);
    let gs = seq![
        TokenGroupV::Token(LessTokenV::Keyword(w1)),
        TokenGroupV::Token(LessTokenV::Space),
        TokenGroupV::Token(lc),
        TokenGroupV::Token(LessTokenV::Space),
        TokenGroupV::Token(LessTokenV::Keyword(w2)),
    ];
    assert(extracted(m) =~= gs);
    let i1 = plain_item(ItemV::Item(w1));
    let cw = plain_item(ItemV::Item(connective_text(or)));
    let b1 = BuilderV { part1: Some(w1), not: false, part2: None, step: Step::AfterFirstWord };
    let b2 = BuilderV { part1: Some(w2), not: false, part2: None, step: Step::AfterFirstWord };
    assert(scan(gs, 0) == Outcome::Done((Seq::<ItemOrV>::empty(), fresh_builder())));
    assert(scan(gs, 1) == Outcome::Done((Seq::<ItemOrV>::empty(), b1)));
    assert(scan(gs, 2) == Outcome::Done((seq![i1], fresh_builder())));
    assert(scan(gs, 3) == Outcome::Done((seq![i1], join_builder(or))));
    assert(built(join_builder(or)) == Some(ItemV::Item(connective_text(or))));
    assert(seq![i1].push(cw) =~= seq![i1, cw]);
    assert(scan(gs, 4) == Outcome::Done((seq![i1, cw], fresh_builder())));
    assert(scan(gs, 5) == Outcome::Done((seq![i1, cw], b2)));
    let all = seq![i1, cw, plain_item(ItemV::Item(w2))];
    assert(seq![i1, cw].push(plain_item(ItemV::Item(w2))) =~= all);
    assert(fold_connectives(all, 0) == Seq::<ItemOrV>::empty());
    assert(fold_connectives(all, 1) =~= seq![i1]);
    let j1 = ItemOrV { data: ItemV::Item(w1), or_post: Some(or) };
    reveal_strlit("or");
    reveal_strlit("and");
    assert("and"@.len() == 3 && "or"@.len() == 2);
    assert("and"@ != "or"@);
    if or {
        assert(cw.data == ItemV::Item("or"@));
    } else {
        assert(cw.data == ItemV::Item("and"@));
    }
    assert(connective(cw) == Some(or));
    assert(fold_connectives(all, 2) =~= seq![j1]);
    assert(fold_connectives(all, 3) =~= seq![j1, plain_item(ItemV::Item(w2))]);
}

/// The join a group prefix stands for: `|` or, `&` and, `!` none.
pub open spec fn prefix_join(p: char) -> Option<bool> {
    if p == '|' {
        Some(true)
    } else if p == '&' {
        Some(false)
    } else {
        None
    }
}

/// `!(..)` is a negated group, `|(..)` and `&(..)` join the items of the
/// group with or / and: a word in parentheses after the prefix parses to
/// the group of that word, negated or joined as the prefix says.
pub proof fn lemma_prefixed_group(p: char, w: Seq<char>)
    requires
        p == '!' || p == '|' || p == '&',
        plain_word(w),
    ensures
        query_outcome(seq![p, '('] + w + seq![')']) == Outcome::Done(
            seq![
                plain_item(
                    ItemV::Group {
                        not: p == '!',
                        or: prefix_join(p),
                        value: seq![plain_item(ItemV::Item(w))],
                    },
                ),
            ],
        ),
{
    let q = seq![p, '('] + w + seq![')'];
    let l = w.len() as int;
    let ts = lexed(q);
    let n = ts.len() as int;
    let pt = lex_char(p);
    let lp = if p == '!' {
        LessTokenV::Not
    } else if p == '|' {
        LessTokenV::Or
    } else {
        LessTokenV::And
    };
    assert(ts =~= seq![pt, TokenV::GroupOpen] + char_keywords(w) + seq![TokenV::GroupClose]) by {
        assert forall|i: int| 0 <= i < n implies #[trigger] ts[i] == (seq![pt, TokenV::GroupOpen]
            + char_keywords(w) + seq![TokenV::GroupClose])[i] by {
            if 2 <= i < l + 2 {
                assert(q[i] == w[i - 2]);
                assert(plain_char(w[i - 2]));
            } else if i == 0 {
                assert(q[i] == p);
            } else if i == 1 {
                assert(q[i] == '(');
            } else {
                assert(q[i] == ')');
            }
        }
    }
    assert forall|i: int| 0 <= i < ts.len() implies !(#[trigger] ts[i] is Escape) by {}
    lemma_unescape_plain(ts, n);
    assert(ts.take(n) =~= ts);
    lemma_unquote_id(ts, n);
    lemma_merge_split(ts, 1, n);
    let s1 = ts.subrange(1, n);
    assert(s1 =~= seq![TokenV::GroupOpen] + char_keywords(w) + seq![TokenV::GroupClose]);
    lemma_merge_split(s1, 1, s1.len() as int);
    let s2 = s1.subrange(1, s1.len() as int);
    assert(s2 =~= char_keywords(w) + seq![TokenV::GroupClose]);
    lemma_merge_split(s2, l, s2.len() as int);
    lemma_merge_agree(s2, char_keywords(w), l);
    lemma_merge_chars(w, l);
    assert(w.take(l) =~= w);
    let s3 = s2.subrange(l, s2.len() as int);
    assert(s3 =~= seq![TokenV::GroupClose]);
    assert(merge_keywords(s3, 0) == Seq::<TokenV>::empty());
    assert(merge_keywords(s3, 1) =~= seq![TokenV::GroupClose]);
    assert(merge_keywords(ts, 0) == Seq::<TokenV>::empty());
    assert(merge_keywords(ts, 1) =~= seq![pt]);
    assert(merge_keywords(s1, 0) == Seq::<TokenV>::empty());
    assert(merge_keywords(s1, 1) =~= seq![TokenV::GroupOpen]);
    let m = seq![pt, TokenV::GroupOpen, TokenV::Keyword(w), TokenV::GroupClose];
    assert(merge_keywords(ts, n) =~= m);
    assert(post_lexed(ts) == Some(m));
    // grouping
    let rest = m.drop_first();
    assert(rest =~= seq![TokenV::GroupOpen, TokenV::Keyword(w), TokenV::GroupClose]);
    assert(close_index(rest, 3, 0) == 3);
    assert(close_index(rest, 2, 1) == 2);
    assert(close_index(rest, 1, 1) == 2);
    assert(rest.subrange(1, 2) =~= seq![TokenV::Keyword(w)]);
    assert(rest.subrange(1, 2).drop_first() =~= Seq::<TokenV>::empty());
    assert(extracted(Seq::<TokenV>::empty()) == Seq::<TokenGroupV>::empty());
    assert(extracted(rest.subrange(1, 2)) =~= seq![TokenGroupV::Token(LessTokenV::Keyword(w))]);
    assert(rest.subrange(3, 3) =~= Seq::<TokenV>::empty());
    let inner = seq![TokenGroupV::Token(LessTokenV::Keyword(w))];
    assert(extracted(rest) =~= seq![TokenGroupV::Group(inner)]);
    let gs = seq![TokenGroupV::Token(lp), TokenGroupV::Group(inner)];
    assert(extracted(m) =~= gs);
    // items
    let iw = plain_item(ItemV::Item(w));
    assert(scan(inner, 0) == Outcome::Done((Seq::<ItemOrV>::empty(), fresh_builder())));
    assert(scan(inner, 1) == Outcome::Done(
        (
            Seq::<ItemOrV>::empty(),
            BuilderV { part1: Some(w), not: false, part2: None, step: Step::AfterFirstWord },
        ),
    ));
    assert(Seq::<ItemOrV>::empty().push(iw) =~= seq![iw]);
    assert(fold_connectives(seq![iw], 0) == Seq::<ItemOrV>::empty());
    assert(fold_connectives(seq![iw], 1) =~= seq![iw]);
    assert(parse_items(inner) == Outcome::Done(seq![iw]));
    let b1 = if p == '!' {
        BuilderV { part1: None, not: true, part2: None, step: Step::AfterNot }
    } else {
        join_builder(p == '|')
    };
    assert(scan(gs, 0) == Outcome::Done((Seq::<ItemOrV>::empty(), fresh_builder())));
    assert(scan(gs, 1) == Outcome::Done((Seq::<ItemOrV>::empty(), b1)));
    let g = plain_item(
        ItemV::Group { not: p == '!', or: prefix_join(p), value: seq![iw] },
    );
    assert(Seq::<ItemOrV>::empty().push(g) =~= seq![g]);
    assert(scan(gs, 2) == Outcome::Done((seq![g], fresh_builder())));
    assert(fold_connectives(seq![g], 0) == Seq::<ItemOrV>::empty());
    assert(fold_connectives(seq![g], 1) =~= seq![g]);
}

/// The tokens of `((w1) w2)` after post-lexing.
#[verifier::rlimit(60)]
proof fn lemma_post_lexed_nested(w1: Seq<char>, w2: Seq<char>)
    requires
        plain_word(w1),
        plain_word(w2),
    ensures
        post_lexed(lexed(seq!['(', '('] + w1 + seq![')', ' '] + w2 + seq![')'])) == Some(
            seq![
                TokenV::GroupOpen,
                TokenV::GroupOpen,
                TokenV::Keyword(w1),
                TokenV::GroupClose,
                TokenV::Space,
                TokenV::Keyword(w2),
                TokenV::GroupClose,
            ],
        ),
{
    let q = seq!['(', '('] + w1 + seq![')', ' '] + w2 + seq![')'];
    let l1 = w1.len() as int;
    let l2 = w2.len() as int;
    let ts = lexed(q);
    let n = ts.len() as int;
    let go = TokenV::GroupOpen;
    let gc = TokenV::GroupClose;
    let sp = TokenV::Space;
    assert(ts =~= seq![go, go] + char_keywords(w1) + seq![gc, sp] + char_keywords(w2) + seq![gc])
        by {
        assert forall|i: int| 0 <= i < n implies #[trigger] ts[i] == (seq![go, go] + char_keywords(
            w1,
        ) + seq![gc, sp] + char_keywords(w2) + seq![gc])[i] by {
            if 2 <= i < l1 + 2 {
                assert(q[i] == w1[i - 2]);
                assert(plain_char(w1[i - 2]));
            } else if l1 + 4 <= i < l1 + 4 + l2 {
                assert(q[i] == w2[i - l1 - 4]);
                assert(plain_char(w2[i - l1 - 4]));
            } else if i < 2 {
                assert(q[i] == '(');
            } else if i == l1 + 2 {
                assert(q[i] == ')');
            } else if i == l1 + 3 {
                assert(q[i] == ' ');
            } else {
                assert(q[i] == ')');
            }
        }
    }
    assert forall|i: int| 0 <= i < ts.len() implies !(#[trigger] ts[i] is Escape) by {}
    lemma_unescape_plain(ts, n);
    assert(ts.take(n) =~= ts);
    lemma_unquote_id(ts, n);
    // merging
    lemma_merge_split(ts, 1, n);
    assert(merge_keywords(ts, 0) == Seq::<TokenV>::empty());
    assert(merge_keywords(ts, 1) =~= seq![go]);
    let s1 = ts.subrange(1, n);
    assert(s1 =~= seq![go] + char_keywords(w1) + seq![gc, sp] + char_keywords(w2) + seq![gc]);
    lemma_merge_split(s1, 1, s1.len() as int);
    assert(merge_keywords(s1, 0) == Seq::<TokenV>::empty());
    assert(merge_keywords(s1, 1) =~= seq![go]);
    let s2 = s1.subrange(1, s1.len() as int);
    assert(s2 =~= char_keywords(w1) + seq![gc, sp] + char_keywords(w2) + seq![gc]);
    lemma_merge_split(s2, l1, s2.len() as int);
    lemma_merge_agree(s2, char_keywords(w1), l1);
    lemma_merge_chars(w1, l1);
    assert(w1.take(l1) =~= w1);
    let s3 = s2.subrange(l1, s2.len() as int);
    assert(s3 =~= seq![gc, sp] + char_keywords(w2) + seq![gc]);
    lemma_merge_split(s3, 1, s3.len() as int);
    assert(merge_keywords(s3, 0) == Seq::<TokenV>::empty());
    assert(merge_keywords(s3, 1) =~= seq![gc]);
    let s4 = s3.subrange(1, s3.len() as int);
    assert(s4 =~= seq![sp] + char_keywords(w2) + seq![gc]);
    lemma_merge_split(s4, 1, s4.len() as int);
    assert(merge_keywords(s4, 0) == Seq::<TokenV>::empty());
    assert(merge_keywords(s4, 1) =~= seq![sp]);
    let s5 = s4.subrange(1, s4.len() as int);
    assert(s5 =~= char_keywords(w2) + seq![gc]);
    lemma_merge_split(s5, l2, s5.len() as int);
    lemma_merge_agree(s5, char_keywords(w2), l2);
    lemma_merge_chars(w2, l2);
    assert(w2.take(l2) =~= w2);
    let s6 = s5.subrange(l2, s5.len() as int);
    assert(s6 =~= seq![gc]);
    assert(merge_keywords(s6, 0) == Seq::<TokenV>::empty());
    assert(merge_keywords(s6, 1) =~= seq![gc]);
    let k1 = TokenV::Keyword(w1);
    let k2 = TokenV::Keyword(w2);
    let m = seq![go, go, k1, gc, sp, k2, gc];
    assert(merge_keywords(ts, n) =~= m);
    assert(post_lexed(ts) == Some(m));
}

/// How the tokens of `((w1) w2)` group.
proof fn lemma_extracted_nested(w1: Seq<char>, w2: Seq<char>)
    ensures
        extracted(
            seq![
                TokenV::GroupOpen,
                TokenV::GroupOpen,
                TokenV::Keyword(w1),
                TokenV::GroupClose,
                TokenV::Space,
                TokenV::Keyword(w2),
                TokenV::GroupClose,
            ],
        ) == seq![
            TokenGroupV::Group(
                seq![
                    TokenGroupV::Group(seq![TokenGroupV::Token(LessTokenV::Keyword(w1))]),
                    TokenGroupV::Token(LessTokenV::Space),
                    TokenGroupV::Token(LessTokenV::Keyword(w2)),
                ],
            ),
        ],
{
    let go = TokenV::GroupOpen;
    let gc = TokenV::GroupClose;
    let sp = TokenV::Space;
    let k1 = TokenV::Keyword(w1);
    let k2 = TokenV::Keyword(w2);
    let m = seq![go, go, k1, gc, sp, k2, gc];
    assert(close_index(m, 7, 0) == 7);
    assert(close_index(m, 6, 1) == 6);
    assert(close_index(m, 5, 1) == 6);
    assert(close_index(m, 4, 1) == 6);
    assert(close_index(m, 3, 2) == 6);
    assert(close_index(m, 2, 2) == 6);
    assert(close_index(m, 1, 1) == 6);
    let inner = m.subrange(1, 6);
    assert(inner =~= seq![go, k1, gc, sp, k2]);
    assert(close_index(inner, 2, 1) == 2);
    assert(close_index(inner, 1, 1) == 2);
    let e = Seq::<TokenV>::empty();
    assert(extracted(e) == Seq::<TokenGroupV>::empty());
    let tk1 = TokenGroupV::Token(LessTokenV::Keyword(w1));
    let tk2 = TokenGroupV::Token(LessTokenV::Keyword(w2));
    let tsp = TokenGroupV::Token(LessTokenV::Space);
    assert(inner.subrange(1, 2) =~= seq![k1]);
    assert(seq![k1].drop_first() =~= e);
    assert(extracted(seq![k1]) =~= seq![tk1]);
    assert(inner.subrange(3, 5) =~= seq![sp, k2]);
    assert(seq![sp, k2].drop_first() =~= seq![k2]);
    assert(seq![k2].drop_first() =~= e);
    assert(extracted(seq![k2]) =~= seq![tk2]);
    assert(extracted(seq![sp, k2]) =~= seq![tsp, tk2]);
    let g1 = TokenGroupV::Group(seq![tk1]);
    assert(extracted(inner) =~= seq![g1, tsp, tk2]);
    assert(m.subrange(7, 7) =~= e);
    let outer = seq![g1, tsp, tk2];
    let gs = seq![TokenGroupV::Group(outer)];
    assert(extracted(m) =~= gs);
}

/// A `(` inside a group opens a nested group: the outer group runs to its
/// matching `)`. `((w1) w2)` parses to one group that holds the group of
/// `w1` and then the word `w2` (a `w2` that is itself a connective word
/// would join the inner group instead).
pub proof fn lemma_nested_group(w1: Seq<char>, w2: Seq<char>)
    requires
        plain_word(w1),
        plain_word(w2),
        w2 != "or"@,
        w2 != "and"@,
    ensures
        query_outcome(seq!['(', '('] + w1 + seq![')', ' '] + w2 + seq![')']) == Outcome::Done(
            seq![
                plain_item(
                    ItemV::Group {
                        not: false,
                        or: None,
                        value: seq![
                            plain_item(
                                ItemV::Group {
                                    not: false,
                                    or: None,
                                    value: seq![plain_item(ItemV::Item(w1))],
                                },
                            ),
                            plain_item(ItemV::Item(w2)),
                        ],
                    },
                ),
            ],
        ),
{
    lemma_post_lexed_nested(w1, w2);
    lemma_extracted_nested(w1, w2);
    let tk1 = TokenGroupV::Token(LessTokenV::Keyword(w1));
    let tk2 = TokenGroupV::Token(LessTokenV::Keyword(w2));
    let tsp = TokenGroupV::Token(LessTokenV::Space);
    let g1 = TokenGroupV::Group(seq![tk1]);
    let outer = seq![g1, tsp, tk2];
    let gs = seq![TokenGroupV::Group(outer)];
    // items of the innermost group
    let i1 = plain_item(ItemV::Item(w1));
    let one = seq![tk1];
    assert(scan(one, 0) == Outcome::Done((Seq::<ItemOrV>::empty(), fresh_builder())));
    assert(scan(one, 1) == Outcome::Done(
        (
            Seq::<ItemOrV>::empty(),
            BuilderV { part1: Some(w1), not: false, part2: None, step: Step::AfterFirstWord },
        ),
    ));
    assert(Seq::<ItemOrV>::empty().push(i1) =~= seq![i1]);
    assert(fold_connectives(seq![i1], 0) == Seq::<ItemOrV>::empty());
    assert(fold_connectives(seq![i1], 1) =~= seq![i1]);
    assert(parse_items(one) == Outcome::Done(seq![i1]));
    // items of the outer group
    let ig = plain_item(ItemV::Group { not: false, or: None, value: seq![i1] });
    let i2 = plain_item(ItemV::Item(w2));
    assert(scan(outer, 0) == Outcome::Done((Seq::<ItemOrV>::empty(), fresh_builder())));
    assert(Seq::<ItemOrV>::empty().push(ig) =~= seq![ig]);
    assert(scan(outer, 1) == Outcome::Done((seq![ig], fresh_builder())));
    assert(scan(outer, 2) == Outcome::Done((seq![ig], fresh_builder())));
    assert(scan(outer, 3) == Outcome::Done(
        (seq![ig], BuilderV { part1: Some(w2), not: false, part2: None, step: Step::AfterFirstWord }),
    ));
    assert(seq![ig].push(i2) =~= seq![ig, i2]);
    assert(connective(i2) is None);
    assert(fold_connectives(seq![ig, i2], 0) == Seq::<ItemOrV>::empty());
    assert(fold_connectives(seq![ig, i2], 1) =~= seq![ig]);
    assert(fold_connectives(seq![ig, i2], 2) =~= seq![ig, i2]);
    assert(parse_items(outer) == Outcome::Done(seq![ig, i2]));
    // the whole query
    let g = plain_item(ItemV::Group { not: false, or: None, value: seq![ig, i2] });
    assert(scan(gs, 0) == Outcome::Done((Seq::<ItemOrV>::empty(), fresh_builder())));
    assert(Seq::<ItemOrV>::empty().push(g) =~= seq![g]);
    assert(scan(gs, 1) == Outcome::Done((seq![g], fresh_builder())));
    assert(fold_connectives(seq![g], 0) == Seq::<ItemOrV>::empty());
    assert(fold_connectives(seq![g], 1) =~= seq![g]);
}

/// How many tokens of `s` are `kind`.
pub open spec fn count_of(s: Seq<TokenV>, kind: TokenV) -> int
    decreases s.len(),
{
    if s.len() == 0 {
        0
    } else {
        count_of(s.drop_last(), kind) + if s.last() == kind {
            1int
        } else {
            0int
        }
    }
}

/// The number of `(` minus the number of `)` among the first `k` tokens.
pub open spec fn paren_depth(s: Seq<TokenV>, k: int) -> int {
    count_of(s.take(k), TokenV::GroupOpen) - count_of(s.take(k), TokenV::GroupClose)
}

proof fn lemma_paren_depth_step(s: Seq<TokenV>, k: int)
    requires
        0 <= k < s.len(),
    ensures
        paren_depth(s, k + 1) == paren_depth(s, k) + depth_delta(s[k]),
{
    assert(s.take(k + 1).drop_last() =~= s.take(k));
}

proof fn lemma_close_index_depth(s: Seq<TokenV>, k: int, j: int)
    requires
        1 <= k <= j < s.len(),
        paren_depth(s, j + 1) == 0,
        forall|i: int| k <= i < j ==> #[trigger] paren_depth(s, i + 1) != 0,
    ensures
        close_index(s, k, paren_depth(s, k)) == j,
    decreases j - k,
{
    lemma_paren_depth_step(s, k);
    if k < j {
        lemma_close_index_depth(s, k + 1, j);
    }
}

/// A group runs to its matching `)`: when a query's tokens open with `(`
/// and `j` is the first position after which as many `)` as `(` have come,
/// the group holds the tokens strictly between, and the rest follows it.
pub proof fn lemma_group_runs_to_matching_close(s: Seq<TokenV>, j: int)
    requires
        0 < j < s.len(),
        s[0] == TokenV::GroupOpen,
        paren_depth(s, j + 1) == 0,
        forall|k: int| 0 < k < j ==> #[trigger] paren_depth(s, k + 1) != 0,
    ensures
        extracted(s) == seq![TokenGroupV::Group(extracted(s.subrange(1, j)))] + extracted(
            s.subrange(j + 1, s.len() as int),
        ),
{
    lemma_paren_depth_step(s, 0);
    assert(s.take(0) =~= Seq::<TokenV>::empty());
    assert(paren_depth(s, 1) == 1);
    lemma_close_index_depth(s, 1, j);
}

/// A group whose `)` never comes runs to the end of the query.
pub proof fn lemma_unclosed_group_runs_to_end(s: Seq<TokenV>)
    requires
        0 < s.len(),
        s[0] == TokenV::GroupOpen,
        forall|k: int| 0 < k < s.len() ==> #[trigger] paren_depth(s, k + 1) != 0,
    ensures
        extracted(s) == seq![TokenGroupV::Group(extracted(s.subrange(1, s.len() as int)))],
{
    lemma_paren_depth_step(s, 0);
    assert(s.take(0) =~= Seq::<TokenV>::empty());
    lemma_close_index_never(s, 1);
    assert(s.subrange(s.len() as int, s.len() as int) =~= Seq::<TokenV>::empty());
    assert(extracted(Seq::<TokenV>::empty()) == Seq::<TokenGroupV>::empty());
    assert(seq![TokenGroupV::Group(extracted(s.subrange(1, s.len() as int)))] + Seq::<
        TokenGroupV,
    >::empty() =~= seq![TokenGroupV::Group(extracted(s.subrange(1, s.len() as int)))]);
}

proof fn lemma_close_index_never(s: Seq<TokenV>, k: int)
    requires
        1 <= k <= s.len(),
        forall|i: int| 0 < i < s.len() ==> #[trigger] paren_depth(s, i + 1) != 0,
    ensures
        close_index(s, k, paren_depth(s, k)) == s.len(),
    decreases s.len() - k,
{
    if k < s.len() {
        lemma_paren_depth_step(s, k);
        lemma_close_index_never(s, k + 1);
    }
}

} // verus!
