//! Key's are specified via the following syntax:
//!
//!   identifier()
//!
//! The parenthesis are used to pass arguments:
//!
//!   identifier(arg1, arg2, ...)
//!
//! Keys without arguments can omit the parenthesis:
//!
//!   identifier   ==   identifier()
//!
//! Some keys expect other keys as arguments. As expected, these
//! arguments are nested:
//!
//!   identifier(arg1, identifier2(arg2))
//!
//! All the "expected" syntax rules apply, for example:
//!
//! identifier(,arg1) // illegal due to misplaced comma
use vstd::prelude::*;
use vstd::string::*;

verus! {

/// True for the three characters that are tokens of their own.
pub open spec fn is_delimiter(c: char) -> bool {
    c == '(' || c == ')' || c == ','
}

/// A raw token as a mathematical value.
pub enum Token {
    Identifier(Seq<char>),
    StartArgumentCollection,
    EndArgumentCollection,
    Comma,
}

/// Raw token represent the basic building blocks of key syntax.
#[derive(Debug)]
pub enum RawToken<'a> {
    Identifier(&'a str),
    StartArgumentCollection,
    EndArgumentCollection,
    Comma,
}

impl<'a> View for RawToken<'a> {
    type V = Token;

    open spec fn view(&self) -> Token {
        match self {
            RawToken::Identifier(s) => Token::Identifier(s@),
            RawToken::StartArgumentCollection => Token::StartArgumentCollection,
            RawToken::EndArgumentCollection => Token::EndArgumentCollection,
            RawToken::Comma => Token::Comma,
        }
    }
}

/// The tokens as mathematical values.
pub open spec fn token_views(tokens: Seq<RawToken>) -> Seq<Token> {
    tokens.map_values(|t: RawToken| t@)
}

/// The token that the delimiter `c` stands for.
pub open spec fn delimiter_token(c: char) -> Token {
    if c == '(' {
        Token::StartArgumentCollection
    } else if c == ')' {
        Token::EndArgumentCollection
    } else {
        Token::Comma
    }
}

/// Where the text begins that follows the last delimiter among the first
/// `i` characters of `v`.
pub open spec fn last_start(v: Seq<char>, i: nat) -> nat
    decreases i,
{
    if i == 0 {
        0
    } else if is_delimiter(v[i - 1]) {
        i
    } else {
        last_start(v, (i - 1) as nat)
    }
}

/// The tokens that end within the first `i` characters of `v`: each
/// delimiter, and before it the text since the delimiter before, if there
/// is any, as an identifier.
pub open spec fn scanned(v: Seq<char>, i: nat) -> Seq<Token>
    decreases i,
{
    if i == 0 {
        Seq::empty()
    } else {
        let before = scanned(v, (i - 1) as nat);
        if is_delimiter(v[i - 1]) {
            let start = last_start(v, (i - 1) as nat);
            let named = if start < i - 1 {
                before.push(Token::Identifier(v.subrange(start as int, i - 1)))
            } else {
                before
            };
            named.push(delimiter_token(v[i - 1]))
        } else {
            before
        }
    }
}

/// True when `v` holds a delimiter.
pub open spec fn has_delimiter(v: Seq<char>) -> bool {
    exists|i: int| 0 <= i < v.len() && is_delimiter(#[trigger] v[i])
}

/// The tokens of the text `v`. Text without a delimiter is one identifier,
/// which is given a pair of parentheses. In other text each delimiter is a
/// token, and so is each stretch of text between two delimiters, before the
/// first and after the last.
pub open spec fn tokens_of(v: Seq<char>) -> Seq<Token> {
    if !has_delimiter(v) {
        seq![Token::Identifier(v), Token::StartArgumentCollection, Token::EndArgumentCollection]
    } else {
        let start = last_start(v, v.len());
        if start < v.len() {
            scanned(v, v.len()).push(Token::Identifier(v.subrange(start as int, v.len() as int)))
        } else {
            scanned(v, v.len())
        }
    }
}

/// What is wrong with the first two tokens, if anything: the first has to
/// be an identifier, and the second an opening parenthesis.
pub open spec fn first_fault(tokens: Seq<Token>) -> Option<Seq<char>> {
    if tokens.len() == 0 {
        Some("Collection of tokens is empty."@)
    } else if !(tokens[0] is Identifier) {
        Some("Expected an identifier at the beginning."@)
    } else if tokens.len() == 1 {
        Some("Missing a token after the first identifier."@)
    } else if !(tokens[1] is StartArgumentCollection) {
        Some("The second token can only be \"(\" or \"\"."@)
    } else {
        None
    }
}

/// What is wrong with the token at `i` and the one that follows it, if
/// anything. An opening parenthesis is followed by a token that is neither
/// another one nor a comma. A closing parenthesis is not followed by an
/// identifier. A comma is followed by nothing or by an identifier.
pub open spec fn ordering_fault_at(tokens: Seq<Token>, i: int) -> Option<Seq<char>> {
    let last = i == tokens.len() - 1;
    match tokens[i] {
        Token::Identifier(_) => None,
        Token::StartArgumentCollection => {
            if last {
                Some("The \"(\" character must be followed by another token."@)
            } else {
                match tokens[i + 1] {
                    Token::StartArgumentCollection => Some(
                        "The \"(\" token can't be followed by another \"(\"."@,
                    ),
                    Token::Comma => Some("The \"(\" token can't be followed by a \",\"."@),
                    _ => None,
                }
            }
        },
        Token::EndArgumentCollection => {
            if !last && tokens[i + 1] is Identifier {
                Some("The \")\" token can't be followed immediately by an identifier."@)
            } else {
                None
            }
        },
        Token::Comma => {
            if !last && !(tokens[i + 1] is Identifier) {
                Some("The \",\" token can only be followed by an identifier."@)
            } else {
                None
            }
        },
    }
}

/// What is wrong with the order of the tokens, as far as the first `n` of
/// them show it: the fault of the first token that has one.
pub open spec fn ordering_fault(tokens: Seq<Token>, n: nat) -> Option<Seq<char>>
    decreases n,
{
    if n == 0 {
        None
    } else {
        match ordering_fault(tokens, (n - 1) as nat) {
            Some(fault) => Some(fault),
            None => ordering_fault_at(tokens, n - 1),
        }
    }
}

/// How many parentheses are open after the first `n` tokens: those that
/// were opened less those that were closed.
pub open spec fn open_count(tokens: Seq<Token>, n: nat) -> int
    decreases n,
{
    if n == 0 {
        0
    } else {
        open_count(tokens, (n - 1) as nat) + match tokens[n - 1] {
            Token::StartArgumentCollection => 1int,
            Token::EndArgumentCollection => -1int,
            _ => 0int,
        }
    }
}

/// True when a parenthesis is closed among the first `n` tokens that was
/// not opened before.
pub open spec fn closes_unopened(tokens: Seq<Token>, n: nat) -> bool {
    exists|k: nat| k <= n && #[trigger] open_count(tokens, k) < 0
}

/// What is wrong with the parentheses, if anything: none is closed that
/// was not opened, and none stays open.
pub open spec fn balance_fault(tokens: Seq<Token>) -> Option<Seq<char>> {
    if closes_unopened(tokens, tokens.len()) {
        Some("Missing a \"(\" token."@)
    } else if open_count(tokens, tokens.len()) > 0 {
        Some("Missing a \")\" token."@)
    } else {
        None
    }
}

/// What is wrong with the tokens, if anything: the first of the faults
/// of the first two tokens, of the order, and of the parentheses.
pub open spec fn token_fault(tokens: Seq<Token>) -> Option<Seq<char>> {
    match first_fault(tokens) {
        Some(fault) => Some(fault),
        None => match ordering_fault(tokens, tokens.len()) {
            Some(fault) => Some(fault),
            None => balance_fault(tokens),
        },
    }
}

/// The text that a token stands for.
pub open spec fn token_text(t: Token) -> Seq<char> {
    match t {
        Token::Identifier(name) => name,
        Token::StartArgumentCollection => seq!['('],
        Token::EndArgumentCollection => seq![')'],
        Token::Comma => seq![','],
    }
}

/// The texts of the first `n` tokens, one after the other.
pub open spec fn joined(tokens: Seq<Token>, n: nat) -> Seq<char>
    decreases n,
{
    if n == 0 {
        Seq::empty()
    } else {
        joined(tokens, (n - 1) as nat) + token_text(tokens[n - 1])
    }
}

/// True when each identifier among the tokens is text without a
/// delimiter, and not empty, and no identifier follows on another.
pub open spec fn identifiers_are_whole(tokens: Seq<Token>) -> bool {
    &&& forall|i: int|
        0 <= i < tokens.len() ==> (#[trigger] tokens[i] matches Token::Identifier(name)
            ==> name.len() > 0 && forall|j: int|
            0 <= j < name.len() ==> !is_delimiter(#[trigger] name[j]))
    &&& forall|i: int|
        0 <= i < tokens.len() - 1 ==> !(#[trigger] tokens[i] is Identifier && tokens[i + 1]
            is Identifier)
}

/// The texts of tokens do not depend on the tokens that follow.
pub proof fn lemma_joined_prefix(a: Seq<Token>, b: Seq<Token>, n: nat)
    requires
        n <= a.len(),
        n <= b.len(),
        forall|i: int| 0 <= i < n ==> a[i] == b[i],
    ensures
        joined(a, n) == joined(b, n),
    decreases n,
{
    if n > 0 {
        lemma_joined_prefix(a, b, (n - 1) as nat);
    }
}

/// The tokens that end within the first `i` characters spell the text up
/// to the last delimiter among these; their identifiers are whole; and
/// the last of them is a delimiter.
pub proof fn lemma_scanned(v: Seq<char>, i: nat)
    requires
        i <= v.len(),
    ensures
        joined(scanned(v, i), scanned(v, i).len()) == v.take(last_start(v, i) as int),
        identifiers_are_whole(scanned(v, i)),
        scanned(v, i).len() > 0 ==> !(scanned(v, i).last() is Identifier),
        scanned(v, i).len() == 0 ==> last_start(v, i) == 0,
    decreases i,
{
    if i == 0 {
        assert(v.take(0) =~= Seq::<char>::empty());
    } else {
        lemma_scanned(v, (i - 1) as nat);
        lemma_last_start(v, (i - 1) as nat);
        let before = scanned(v, (i - 1) as nat);
        let start = last_start(v, (i - 1) as nat);
        if is_delimiter(v[i - 1]) {
            let name = v.subrange(start as int, i - 1);
            let named = if start < i - 1 {
                before.push(Token::Identifier(name))
            } else {
                before
            };
            let all = named.push(delimiter_token(v[i - 1]));
            lemma_joined_prefix(named, before, before.len());
            lemma_joined_prefix(all, named, named.len());
            assert(joined(named, named.len()) =~= v.take(i - 1)) by {
                if start < i - 1 {
                    assert(v.take(start as int) + name =~= v.take(i - 1));
                }
            }
            assert(token_text(delimiter_token(v[i - 1])) =~= seq![v[i - 1]]);
            assert(v.take(i - 1) + seq![v[i - 1]] =~= v.take(i as int));
            assert(identifiers_are_whole(named)) by {
                if start < i - 1 {
                    assert forall|j: int| 0 <= j < name.len() implies !is_delimiter(
                        #[trigger] name[j],
                    ) by {
                        assert(name[j] == v[start + j]);
                    }
                }
            }
        }
    }
}

/// The tokens of a text with a delimiter spell the text; their
/// identifiers are stretches of the text without a delimiter, none of
/// them empty, and no identifier follows on another.
pub proof fn lemma_tokens_spell_the_text(v: Seq<char>)
    requires
        has_delimiter(v),
    ensures
        joined(tokens_of(v), tokens_of(v).len()) == v,
        identifiers_are_whole(tokens_of(v)),
{
    lemma_scanned(v, v.len());
    lemma_last_start(v, v.len());
    let all = scanned(v, v.len());
    let start = last_start(v, v.len());
    if start < v.len() {
        let name = v.subrange(start as int, v.len() as int);
        let tokens = all.push(Token::Identifier(name));
        lemma_joined_prefix(tokens, all, all.len());
        assert(v.take(start as int) + name =~= v);
        assert forall|j: int| 0 <= j < name.len() implies !is_delimiter(#[trigger] name[j]) by {
            assert(name[j] == v[start + j]);
        }
    } else {
        assert(v.take(v.len() as int) =~= v);
    }
}

/// The views of tokens with one more token are the views with one more view.
pub proof fn lemma_token_views_push(tokens: Seq<RawToken>, t: RawToken)
    ensures
        token_views(tokens.push(t)) == token_views(tokens).push(t@),
{
    assert(token_views(tokens.push(t)) =~= token_views(tokens).push(t@));
}

/// The text since the last delimiter holds no delimiter.
pub proof fn lemma_last_start(v: Seq<char>, i: nat)
    requires
        i <= v.len(),
    ensures
        last_start(v, i) <= i,
        forall|j: int| last_start(v, i) <= j < i ==> !is_delimiter(#[trigger] v[j]),
        last_start(v, i) > 0 ==> is_delimiter(v[last_start(v, i) - 1]),
    decreases i,
{
    if i > 0 && !is_delimiter(v[i - 1]) {
        lemma_last_start(v, (i - 1) as nat);
    }
}

impl<'a> RawToken<'a> {
    /// Create raw tokens given a string constant. Parsing errors are
    /// returned via the Result.
    pub fn create(v: &'a str) -> (r: Result<Vec<RawToken<'a>>, String>)
        requires
            v@.len() > 0,
        ensures
            match r {
                Ok(tokens) => token_views(tokens@) == tokens_of(v@) && token_fault(tokens_of(v@))
                    is None,
                Err(message) => token_fault(tokens_of(v@)) == Some(message@),
            },
    {
        let ans = RawToken::parse(v);
        match RawToken::verify_first_is_identifier(&ans) {
            Err(e) => {
                return Err(e);
            },
            Ok(_) => {},
        }
        match RawToken::verify_ordering(&ans) {
            Err(e) => {
                return Err(e);
            },
            Ok(_) => {},
        }
        match RawToken::verify_collection_starts_and_ends(&ans) {
            Err(e) => {
                return Err(e);
            },
            Ok(_) => {},
        }
        Ok(ans)
    }

    /// Cut the text into tokens, without any check of them.
    pub fn parse(v: &'a str) -> (ans: Vec<RawToken<'a>>)
        requires
            v@.len() > 0,
        ensures
            token_views(ans@) == tokens_of(v@),
    {
        let mut ans: Vec<RawToken<'a>> = Vec::new();
        let len = v.unicode_len();
        let mut start: usize = 0;
        let mut seen = false;
        let ghost mut witness: int = 0;
        let mut i: usize = 0;
        assert(token_views(ans@) =~= scanned(v@, 0));
        while i < len
            invariant
                i <= len,
                len == v@.len(),
                start == last_start(v@, i as nat),
                start <= i,
                token_views(ans@) == scanned(v@, i as nat),
                seen ==> 0 <= witness < i && is_delimiter(v@[witness]),
                !seen ==> forall|j: int| 0 <= j < i ==> !is_delimiter(#[trigger] v@[j]),
            decreases len - i,
        {
            let c = v.get_char(i);
            if c == '(' || c == ')' || c == ',' {
                let ghost before = ans@;
                if start < i {
                    let name = v.substring_char(start, i);
                    proof {
                        lemma_token_views_push(ans@, RawToken::Identifier(name));
                    }
                    ans.push(RawToken::Identifier(name));
                }
                let token = if c == '(' {
                    RawToken::StartArgumentCollection
                } else if c == ')' {
                    RawToken::EndArgumentCollection
                } else {
                    RawToken::Comma
                };
                proof {
                    lemma_token_views_push(ans@, token);
                    witness = i as int;
                }
                ans.push(token);
                seen = true;
                start = i + 1;
            }
            i += 1;
        }
        if !seen {
            // Just a token - no commas or parens.
            // Add a pair of synthetic () tokens.
            // Later code expects tokens to start like "identifier(optional_args)".
            let mut plain: Vec<RawToken<'a>> = Vec::new();
            plain.push(RawToken::Identifier(v));
            plain.push(RawToken::StartArgumentCollection);
            plain.push(RawToken::EndArgumentCollection);
            assert(token_views(plain@) =~= tokens_of(v@));
            return plain;
        }
        if start < len {
            let name = v.substring_char(start, len);
            proof {
                lemma_token_views_push(ans@, RawToken::Identifier(name));
            }
            ans.push(RawToken::Identifier(name));
        }
        assert(has_delimiter(v@)) by {
            assert(is_delimiter(v@[witness]));
        }
        ans
    }

    /// Check that the tokens begin with an identifier and an opening parenthesis.
    pub fn verify_first_is_identifier(tokens: &Vec<RawToken>) -> (r: Result<(), String>)
        ensures
            match r {
                Ok(_) => first_fault(token_views(tokens@)) is None,
                Err(message) => first_fault(token_views(tokens@)) == Some(message@),
            },
    {
        // First element must be an identifier.
        if tokens.len() == 0 {
            return Err(String::from_str("Collection of tokens is empty."));
        }
        match tokens[0] {
            RawToken::Identifier(_) => {},
            _ => {
                return Err(String::from_str("Expected an identifier at the beginning."));
            },
        }

        // The second element must be a "(".
        if tokens.len() == 1 {
            return Err(String::from_str("Missing a token after the first identifier."));
        }
        match tokens[1] {
            RawToken::StartArgumentCollection => Ok(()),
            _ => Err(String::from_str("The second token can only be \"(\" or \"\".")),
        }
    }

    /// Check that each token is followed by a token that may follow it.
    pub fn verify_ordering(tokens: &Vec<RawToken>) -> (r: Result<(), String>)
        ensures
            match r {
                Ok(_) => ordering_fault(token_views(tokens@), tokens@.len()) is None,
                Err(message) => ordering_fault(token_views(tokens@), tokens@.len()) == Some(
                    message@,
                ),
            },
    {
        // This is the complete list of allowed syntax:
        //   identifier
        //   identifier + (
        //   identifier + ,
        //   identifier + )identifier
        //   )
        //   ) + ,
        //   ) + )
        //   ( + )
        //   ( + identifier
        //   , + identifier
        let ghost views = token_views(tokens@);
        let mut i: usize = 0;
        while i < tokens.len()
            invariant
                i <= tokens@.len(),
                views == token_views(tokens@),
                ordering_fault(views, i as nat) is None,
            decreases tokens@.len() - i,
        {
            let last = i == tokens.len() - 1;
            match tokens[i] {
                RawToken::Identifier(_) => {
                    // There's nothing really to verify here.
                    // An identifier can be before any of the other tokens.
                },
                RawToken::StartArgumentCollection => {
                    // Argument start can be followed by any other token except
                    // nothing or another argument start.
                    if last {
                        let e = String::from_str(
                            "The \"(\" character must be followed by another token.",
                        );
                        proof {
                            lemma_ordering_fault_found(views, (i + 1) as nat, tokens@.len());
                        }
                        return Err(e);
                    }
                    match tokens[i + 1] {
                        RawToken::StartArgumentCollection => {
                            let e = String::from_str(
                                "The \"(\" token can't be followed by another \"(\".",
                            );
                            proof {
                                lemma_ordering_fault_found(views, (i + 1) as nat, tokens@.len());
                            }
                            return Err(e);
                        },
                        RawToken::Comma => {
                            let e = String::from_str("The \"(\" token can't be followed by a \",\".");
                            proof {
                                lemma_ordering_fault_found(views, (i + 1) as nat, tokens@.len());
                            }
                            return Err(e);
                        },
                        _ => (),
                    }
                },
                RawToken::EndArgumentCollection => {
                    if !last {
                        match tokens[i + 1] {
                            RawToken::Identifier(_) => {
                                let e = String::from_str(
                                    "The \")\" token can't be followed immediately by an identifier.",
                                );
                                proof {
                                    lemma_ordering_fault_found(
                                        views,
                                        (i + 1) as nat,
                                        tokens@.len(),
                                    );
                                }
                                return Err(e);
                            },
                            _ => (),
                        }
                    }
                },
                RawToken::Comma => {
                    if !last {
                        match tokens[i + 1] {
                            RawToken::Identifier(_) => (),
                            _ => {
                                let e = String::from_str(
                                    "The \",\" token can only be followed by an identifier.",
                                );
                                proof {
                                    lemma_ordering_fault_found(
                                        views,
                                        (i + 1) as nat,
                                        tokens@.len(),
                                    );
                                }
                                return Err(e);
                            },
                        }
                    }
                },
            }
            i += 1;
        }
        Ok(())
    }

    /// Check that the parentheses match.
    pub fn verify_collection_starts_and_ends(tokens: &Vec<RawToken>) -> (r: Result<(), String>)
        ensures
            match r {
                Ok(_) => balance_fault(token_views(tokens@)) is None,
                Err(message) => balance_fault(token_views(tokens@)) == Some(message@),
            },
    {
        // Scan from left to right counting the number of start and stop tokens.
        // Start and stop need to cancel each other out.
        let ghost views = token_views(tokens@);
        let mut start_count: usize = 0;
        let mut i: usize = 0;
        while i < tokens.len()
            invariant
                i <= tokens@.len(),
                views == token_views(tokens@),
                start_count == open_count(views, i as nat),
                start_count <= i,
                !closes_unopened(views, i as nat),
            decreases tokens@.len() - i,
        {
            match tokens[i] {
                RawToken::StartArgumentCollection => {
                    start_count += 1;
                },
                RawToken::EndArgumentCollection => {
                    if start_count == 0 {
                        assert(closes_unopened(views, tokens@.len())) by {
                            assert(open_count(views, (i + 1) as nat) < 0);
                        }
                        return Err(String::from_str("Missing a \"(\" token."));
                    }
                    start_count -= 1;
                },
                _ => (),
            }
            assert(!closes_unopened(views, (i + 1) as nat)) by {
                assert forall|k: nat| k <= i + 1 implies !(#[trigger] open_count(views, k) < 0) by {
                    if k <= i {
                        assert(!closes_unopened(views, i as nat));
                    }
                }
            }
            i += 1;
        }

        if start_count > 0 {
            Err(String::from_str("Missing a \")\" token."))
        } else {
            Ok(())
        }
    }
}

/// A fault of the order that the first `n` tokens show is the fault that
/// the first `m` show, for every larger `m`.
pub proof fn lemma_ordering_fault_found(tokens: Seq<Token>, n: nat, m: nat)
    requires
        n <= m,
        ordering_fault(tokens, n) is Some,
    ensures
        ordering_fault(tokens, m) == ordering_fault(tokens, n),
    decreases m,
{
    if n < m {
        lemma_ordering_fault_found(tokens, n, (m - 1) as nat);
    }
}


/// A simplified token as a mathematical value.
pub enum Element {
    Function(Seq<char>),
    Argument(Seq<char>),
    EndFunction,
}

/// Simplified tokens are one step up from raw tokens - they form
/// higher level concepts like functions.
#[derive(Debug)]
pub enum SimplifiedToken<'a> {
    Function(&'a str),
    Argument(&'a str),
    EndFunction,
}

impl<'a> View for SimplifiedToken<'a> {
    type V = Element;

    open spec fn view(&self) -> Element {
        match self {
            SimplifiedToken::Function(s) => Element::Function(s@),
            SimplifiedToken::Argument(s) => Element::Argument(s@),
            SimplifiedToken::EndFunction => Element::EndFunction,
        }
    }
}

/// The simplified tokens as mathematical values.
pub open spec fn element_views(tokens: Seq<SimplifiedToken>) -> Seq<Element> {
    tokens.map_values(|t: SimplifiedToken| t@)
}

/// What the first `n` tokens come to when they are simplified: an
/// identifier before an opening parenthesis is a function, every other
/// identifier an argument; a closing parenthesis ends a function; commas
/// and opening parentheses are left out.
pub open spec fn simplified(tokens: Seq<Token>, n: nat) -> Seq<Element>
    decreases n,
{
    if n == 0 {
        Seq::empty()
    } else {
        let before = simplified(tokens, (n - 1) as nat);
        match tokens[n - 1] {
            Token::Comma => before,
            Token::StartArgumentCollection => before,
            Token::EndArgumentCollection => before.push(Element::EndFunction),
            Token::Identifier(name) => {
                if n < tokens.len() && tokens[n as int] is StartArgumentCollection {
                    before.push(Element::Function(name))
                } else {
                    before.push(Element::Argument(name))
                }
            },
        }
    }
}

/// The views of simplified tokens with one more token are the views with
/// one more view.
pub proof fn lemma_element_views_push(tokens: Seq<SimplifiedToken>, t: SimplifiedToken)
    ensures
        element_views(tokens.push(t)) == element_views(tokens).push(t@),
{
    assert(element_views(tokens.push(t)) =~= element_views(tokens).push(t@));
}

/// Tokens that begin with an identifier and an opening parenthesis begin
/// with a function when they are simplified.
pub proof fn lemma_simplified_begins(tokens: Seq<Token>, n: nat)
    requires
        first_fault(tokens) is None,
        1 <= n <= tokens.len(),
    ensures
        simplified(tokens, n).len() >= 1,
        simplified(tokens, n)[0] is Function,
    decreases n,
{
    if n > 1 {
        lemma_simplified_begins(tokens, (n - 1) as nat);
    } else {
        assert(simplified(tokens, 0).len() == 0);
    }
}

impl<'a> SimplifiedToken<'a> {
    /// Turn raw tokens into functions, arguments and ends of functions.
    pub fn simplify(items: Vec<RawToken<'a>>) -> (ans: Vec<SimplifiedToken<'a>>)
        ensures
            element_views(ans@) == simplified(token_views(items@), items@.len()),
    {
        let mut ans: Vec<SimplifiedToken<'a>> = Vec::new();
        let ghost views = token_views(items@);
        let mut i: usize = 0;
        assert(element_views(ans@) =~= simplified(views, 0));
        while i < items.len()
            invariant
                i <= items@.len(),
                views == token_views(items@),
                element_views(ans@) == simplified(views, i as nat),
            decreases items@.len() - i,
        {
            match &items[i] {
                RawToken::Comma => (),
                RawToken::StartArgumentCollection => (),
                RawToken::EndArgumentCollection => {
                    proof {
                        lemma_element_views_push(ans@, SimplifiedToken::EndFunction);
                    }
                    ans.push(SimplifiedToken::EndFunction);
                },
                RawToken::Identifier(v) => {
                    let name: &'a str = *v;
                    let is_function = if i + 1 < items.len() {
                        match &items[i + 1] {
                            RawToken::StartArgumentCollection => true,
                            _ => false,
                        }
                    } else {
                        false
                    };
                    let token = if is_function {
                        SimplifiedToken::Function(name)
                    } else {
                        SimplifiedToken::Argument(name)
                    };
                    proof {
                        lemma_element_views_push(ans@, token);
                    }
                    ans.push(token);
                },
            }
            i += 1;
        }
        ans
    }
}

/// A key tree as a mathematical value.
pub struct KeyTree {
    /// The name of the key.
    pub identifier: Seq<char>,
    /// Its arguments, in their order.
    pub args: Seq<KeyTree>,
}

/// The tree without arguments.
pub open spec fn leaf(identifier: Seq<char>) -> KeyTree {
    KeyTree { identifier, args: Seq::empty() }
}

/// The name that a simplified token carries.
pub open spec fn element_name(e: Element) -> Seq<char> {
    match e {
        Element::Function(name) => name,
        Element::Argument(name) => name,
        Element::EndFunction => Seq::empty(),
    }
}

/// The tree of the function that begins at `idx`, and where it ends: at
/// the token that ends the function, or behind the last token.
pub open spec fn tree_at(elements: Seq<Element>, idx: int) -> (KeyTree, int)
    decreases elements.len() - idx, 0int,
{
    if 0 <= idx < elements.len() {
        let (args, end) = args_at(elements, idx + 1, Seq::empty());
        (KeyTree { identifier: element_name(elements[idx]), args }, end)
    } else {
        (leaf(Seq::empty()), idx)
    }
}

/// The arguments `acc` and after them those that begin at `idx` or later,
/// up to the token that ends the function, and where that token is. An
/// argument is a tree without arguments; a function is a tree of its own,
/// behind whose end the arguments go on.
pub open spec fn args_at(elements: Seq<Element>, idx: int, acc: Seq<KeyTree>) -> (
    Seq<KeyTree>,
    int,
)
    decreases elements.len() - idx, 1int,
{
    if 0 <= idx < elements.len() {
        match elements[idx] {
            Element::EndFunction => (acc, idx),
            Element::Argument(name) => args_at(elements, idx + 1, acc.push(leaf(name))),
            Element::Function(_) => {
                let (tree, end) = tree_at(elements, idx);
                if idx < end < elements.len() {
                    args_at(elements, end + 1, acc.push(tree))
                } else {
                    (acc.push(tree), end)
                }
            },
        }
    } else {
        (acc, idx)
    }
}

/// A function ends behind its beginning and not behind the last token but one.
pub proof fn lemma_tree_at_end(elements: Seq<Element>, idx: int)
    requires
        0 <= idx < elements.len(),
    ensures
        idx < tree_at(elements, idx).1 <= elements.len(),
    decreases elements.len() - idx, 0int,
{
    lemma_args_at_end(elements, idx + 1, Seq::empty());
}

/// Arguments end at their beginning or behind it, and not behind the last
/// token but one.
pub proof fn lemma_args_at_end(elements: Seq<Element>, idx: int, acc: Seq<KeyTree>)
    requires
        0 <= idx <= elements.len(),
    ensures
        idx <= args_at(elements, idx, acc).1 <= elements.len(),
    decreases elements.len() - idx, 1int,
{
    if idx < elements.len() {
        match elements[idx] {
            Element::EndFunction => {},
            Element::Argument(name) => {
                lemma_args_at_end(elements, idx + 1, acc.push(leaf(name)));
            },
            Element::Function(_) => {
                lemma_tree_at_end(elements, idx);
                let (tree, end) = tree_at(elements, idx);
                if end < elements.len() {
                    lemma_args_at_end(elements, end + 1, acc.push(tree));
                }
            },
        }
    }
}

/// The tree that the text `v` describes, if its tokens are without fault.
pub open spec fn tree_of(v: Seq<char>) -> KeyTree {
    let tokens = tokens_of(v);
    tree_at(simplified(tokens, tokens.len()), 0).0
}

/// Precursor to keys - hierarchical collection of identifiers and optional arguments (all strings).
#[derive(Debug)]
pub struct ParsedKeyTree<'a> {
    pub identifier: &'a str,
    pub args: Vec<ParsedKeyTree<'a>>,
}

impl<'a> View for ParsedKeyTree<'a> {
    type V = KeyTree;

    open spec fn view(&self) -> KeyTree
        decreases self,
    {
        KeyTree {
            identifier: self.identifier@,
            args: Seq::new(
                self.args@.len(),
                |i: int|
                    if 0 <= i < self.args@.len() {
                        self.args@[i]@
                    } else {
                        leaf(Seq::empty())
                    },
            ),
        }
    }
}

/// The trees as mathematical values.
pub open spec fn tree_views(trees: Seq<ParsedKeyTree>) -> Seq<KeyTree> {
    Seq::new(trees.len(), |i: int| trees[i]@)
}

impl<'a> ParsedKeyTree<'a> {
    /// Read the text of a key into a tree.
    pub fn create(v: &'a str) -> (r: Result<ParsedKeyTree<'a>, String>)
        requires
            v@.len() > 0,
        ensures
            match r {
                Ok(tree) => token_fault(tokens_of(v@)) is None && tree@ == tree_of(v@),
                Err(message) => token_fault(tokens_of(v@)) == Some(message@),
            },
    {
        // Convert the string into a set of tokens, then simplify.
        let raw = match RawToken::create(v) {
            Ok(raw) => raw,
            Err(e) => {
                return Err(e);
            },
        };
        proof {
            lemma_simplified_begins(tokens_of(v@), tokens_of(v@).len());
        }
        let tokens = SimplifiedToken::simplify(raw);

        // Take those tokens and assemble them into a key tree.
        let mut idx: usize = 0;
        let args = ParsedKeyTree::convert_to_tree_recursive(&tokens, &mut idx);
        Ok(args)
    }

    /// Build the tree of the function at `idx`, and leave `idx` where the function ends.
    pub fn convert_to_tree_recursive(vals: &Vec<SimplifiedToken<'a>>, idx: &mut usize) -> (ans:
        ParsedKeyTree<'a>)
        requires
            *old(idx) < vals@.len(),
            vals@[*old(idx) as int] is Function,
        ensures
            (ans@, *final(idx) as int) == tree_at(element_views(vals@), *old(idx) as int),
            *old(idx) < *final(idx) <= vals@.len(),
        decreases vals@.len() - *old(idx),
    {
        let ghost elements = element_views(vals@);
        let ghost begin = *idx as int;
        // The first item will always be a function.
        let identifier: &'a str = match &vals[*idx] {
            SimplifiedToken::Function(a) => *a,
            SimplifiedToken::Argument(a) => *a,
            SimplifiedToken::EndFunction => "",
        };
        let mut args: Vec<ParsedKeyTree<'a>> = Vec::new();
        let len = vals.len();
        assert(*idx < len);
        *idx += 1;
        proof {
            lemma_tree_at_end(elements, begin);
            assert(tree_views(args@) =~= Seq::<KeyTree>::empty());
        }

        // Loop until we find an EndFunction token.
        while *idx < vals.len()
            invariant
                elements == element_views(vals@),
                begin == *old(idx),
                0 <= begin < *idx <= vals@.len(),
                args_at(elements, begin + 1, Seq::empty()) == args_at(
                    elements,
                    *idx as int,
                    tree_views(args@),
                ),
            ensures
                begin < *idx <= vals@.len(),
                args_at(elements, begin + 1, Seq::empty()) == (tree_views(args@), *idx as int),
            decreases vals@.len() - *idx,
        {
            let ghost here = *idx as int;
            let ghost acc = tree_views(args@);
            match &vals[*idx] {
                SimplifiedToken::EndFunction => {
                    break ;
                },
                SimplifiedToken::Function(_) => {
                    let sub = ParsedKeyTree::convert_to_tree_recursive(vals, idx);
                    proof {
                        assert(tree_views(args@.push(sub)) =~= acc.push(sub@));
                    }
                    args.push(sub);
                    if *idx >= vals.len() {
                        break ;
                    }
                },
                SimplifiedToken::Argument(v) => {
                    let sub = ParsedKeyTree { identifier: *v, args: Vec::new() };
                    proof {
                        assert(sub@.args =~= Seq::<KeyTree>::empty());
                        assert(tree_views(args@.push(sub)) =~= acc.push(leaf(v@)));
                    }
                    args.push(sub);
                },
            }
            *idx += 1;
        }
        let ans = ParsedKeyTree { identifier, args };
        proof {
            assert(ans@.args =~= tree_views(ans.args@));
        }
        ans
    }
}

} // verus!
