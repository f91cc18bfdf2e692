//! The configuration compiler: parses the mapping DSL into the read-only
//! matching tables of [`crate::tables::Mapping`].
//!
//! The DSL is a tree of named blocks.  A block names an XML element as a
//! quoted literal followed by a braced body; its nesting level is the
//! matching depth (the root block is depth 1).  A body holds, in any order:
//!
//! * directive lines `column = "xml/path"`, mapping the path to an output
//!   column; the path names a child of the block's element — its text, or
//!   an attribute via a `/@name` suffix — and matches one depth below the
//!   block;
//! * filter lines `xml/path == "literal"`, an equality constraint on the
//!   captured text of the path, against the same child depth;
//! * nested blocks, matching children one depth deeper.
//!
//! Any grammar violation, including a directive or filter missing either
//! side, is a fatal [`ConfigError`]: no partial configuration is produced.

use crate::tables::GroupKey;
use crate::tables::Groups;
use crate::tables::MappingV;
use crate::tables::Mapping;
use crate::tables::PathMap;
use vstd::prelude::*;

verus! {

broadcast use vstd::std_specs::vec::group_vec_axioms;

/// Why a configuration was rejected.
#[derive(Debug, PartialEq, Eq, Clone, Copy)]
pub enum ConfigError {
    /// The text ended inside a quoted literal.
    UnterminatedQuote,
    /// The text ended before a block's closing brace.
    UnclosedBlock,
    /// A block name was not followed by an opening brace.
    MissingBrace,
    /// A name stood alone, with neither `=` nor `==` after it.
    DanglingName,
    /// `=` was not followed by a quoted path.
    MalformedDirective,
    /// `==` was not followed by a quoted literal.
    MalformedFilter,
    /// A token stood where no grammar rule allows it.
    UnexpectedToken,
    /// The configuration holds no block at all.
    EmptyConfig,
}

/// One lexical token of the DSL.
pub enum Token {
    /// A run of name characters: a column name or an element path.
    Word(String),
    /// A quoted literal, without its quotes.
    Quoted(String),
    LBrace,
    RBrace,
    Equals,
    DoubleEquals,
}

/// The mathematical value of a [`Token`].
pub ghost enum TokenV {
    Word(Seq<char>),
    Quoted(Seq<char>),
    LBrace,
    RBrace,
    Equals,
    DoubleEquals,
}

impl View for Token {
    type V = TokenV;

    open spec fn view(&self) -> TokenV {
        match self {
            Token::Word(s) => TokenV::Word(s@),
            Token::Quoted(s) => TokenV::Quoted(s@),
            Token::LBrace => TokenV::LBrace,
            Token::RBrace => TokenV::RBrace,
            Token::Equals => TokenV::Equals,
            Token::DoubleEquals => TokenV::DoubleEquals,
        }
    }
}

impl DeepView for Token {
    type V = TokenV;

    open spec fn deep_view(&self) -> TokenV {
        self.view()
    }
}

pub open spec fn is_space_char(c: char) -> bool {
    c == ' ' || c == '\t' || c == '\r' || c == '\n'
}

/// A name character: anything that is not whitespace or DSL punctuation.
pub open spec fn is_word_char(c: char) -> bool {
    !is_space_char(c) && c != '"' && c != '{' && c != '}' && c != '='
}

/// The token the lexer is in the middle of.
pub enum Pending {
    Free,
    Word(Vec<char>),
    Quote(Vec<char>),
    HalfEquals,
}

pub ghost enum PendingV {
    Free,
    Word(Seq<char>),
    Quote(Seq<char>),
    HalfEquals,
}

impl View for Pending {
    type V = PendingV;

    open spec fn view(&self) -> PendingV {
        match self {
            Pending::Free => PendingV::Free,
            Pending::Word(b) => PendingV::Word(b@),
            Pending::Quote(b) => PendingV::Quote(b@),
            Pending::HalfEquals => PendingV::HalfEquals,
        }
    }
}

/// Ends the pending token, if any, and appends it.
pub open spec fn lex_flush(tokens: Seq<TokenV>, pending: PendingV) -> Seq<TokenV> {
    match pending {
        PendingV::Free => tokens,
        PendingV::Word(w) => tokens.push(TokenV::Word(w)),
        PendingV::HalfEquals => tokens.push(TokenV::Equals),
        PendingV::Quote(_) => tokens,
    }
}

/// One character of lexing.
pub open spec fn lex_step(tokens: Seq<TokenV>, pending: PendingV, c: char) -> (Seq<TokenV>, PendingV) {
    match pending {
        PendingV::Quote(buf) => if c == '"' {
            (tokens.push(TokenV::Quoted(buf)), PendingV::Free)
        } else {
            (tokens, PendingV::Quote(buf.push(c)))
        },
        PendingV::Word(w) => if is_word_char(c) {
            (tokens, PendingV::Word(w.push(c)))
        } else {
            lex_open(lex_flush(tokens, pending), c)
        },
        PendingV::HalfEquals => if c == '=' {
            (tokens.push(TokenV::DoubleEquals), PendingV::Free)
        } else {
            lex_open(lex_flush(tokens, pending), c)
        },
        PendingV::Free => lex_open(tokens, c),
    }
}

/// Lexing one character with no token pending.
pub open spec fn lex_open(tokens: Seq<TokenV>, c: char) -> (Seq<TokenV>, PendingV) {
    if is_space_char(c) {
        (tokens, PendingV::Free)
    } else if c == '"' {
        (tokens, PendingV::Quote(Seq::empty()))
    } else if c == '{' {
        (tokens.push(TokenV::LBrace), PendingV::Free)
    } else if c == '}' {
        (tokens.push(TokenV::RBrace), PendingV::Free)
    } else if c == '=' {
        (tokens, PendingV::HalfEquals)
    } else {
        (tokens, PendingV::Word(seq![c]))
    }
}

/// Lexing from position `i` to the end of the text.
pub open spec fn lex_run(s: Seq<char>, i: int, tokens: Seq<TokenV>, pending: PendingV) -> (
    Seq<TokenV>,
    PendingV,
)
    decreases s.len() - i,
{
    if i < 0 || i >= s.len() {
        (tokens, pending)
    } else {
        let stepped = lex_step(tokens, pending, s[i]);
        lex_run(s, i + 1, stepped.0, stepped.1)
    }
}

/// The token sequence a text denotes, or nothing if a quote is left open.
pub open spec fn tokenize_spec(s: Seq<char>) -> Option<Seq<TokenV>> {
    let run = lex_run(s, 0, Seq::empty(), PendingV::Free);
    match run.1 {
        PendingV::Quote(_) => None,
        _ => Some(lex_flush(run.0, run.1)),
    }
}

/// Relies on String implementing FromIterator over char: collecting
/// yields a string of exactly the given characters, in order.
#[verifier::external_body]
fn chars_to_string(chars: &Vec<char>) -> (s: String)
    ensures
        s@ == chars@,
{
    chars.iter().collect()
}

/// One character of lexing, on the executable state.
fn lex_step_exec(tokens: &mut Vec<Token>, pending: Pending, c: char) -> (p2: Pending)
    ensures
        (final(tokens).deep_view(), p2@) == lex_step(old(tokens).deep_view(), pending@, c),
{
    let ghost before = tokens.deep_view();
    match pending {
        Pending::Quote(mut buf) => {
            if c == '"' {
                tokens.push(Token::Quoted(chars_to_string(&buf)));
                proof {
                    assert(tokens.deep_view() =~= before.push(TokenV::Quoted(buf@)));
                }
                Pending::Free
            } else {
                buf.push(c);
                Pending::Quote(buf)
            }
        },
        Pending::Word(mut buf) => {
            if is_word_char_exec(c) {
                buf.push(c);
                Pending::Word(buf)
            } else {
                tokens.push(Token::Word(chars_to_string(&buf)));
                proof {
                    assert(tokens.deep_view() =~= before.push(TokenV::Word(buf@)));
                }
                lex_open_exec(tokens, c)
            }
        },
        Pending::HalfEquals => {
            if c == '=' {
                tokens.push(Token::DoubleEquals);
                proof {
                    assert(tokens.deep_view() =~= before.push(TokenV::DoubleEquals));
                }
                Pending::Free
            } else {
                tokens.push(Token::Equals);
                proof {
                    assert(tokens.deep_view() =~= before.push(TokenV::Equals));
                }
                lex_open_exec(tokens, c)
            }
        },
        Pending::Free => lex_open_exec(tokens, c),
    }
}

fn is_space_char_exec(c: char) -> (b: bool)
    ensures
        b == is_space_char(c),
{
    c == ' ' || c == '\t' || c == '\r' || c == '\n'
}

fn is_word_char_exec(c: char) -> (b: bool)
    ensures
        b == is_word_char(c),
{
    !is_space_char_exec(c) && c != '"' && c != '{' && c != '}' && c != '='
}

fn lex_open_exec(tokens: &mut Vec<Token>, c: char) -> (p2: Pending)
    ensures
        (final(tokens).deep_view(), p2@) == lex_open(old(tokens).deep_view(), c),
{
    let ghost before = tokens.deep_view();
    if is_space_char_exec(c) {
        Pending::Free
    } else if c == '"' {
        Pending::Quote(Vec::new())
    } else if c == '{' {
        tokens.push(Token::LBrace);
        proof {
            assert(tokens.deep_view() =~= before.push(TokenV::LBrace));
        }
        Pending::Free
    } else if c == '}' {
        tokens.push(Token::RBrace);
        proof {
            assert(tokens.deep_view() =~= before.push(TokenV::RBrace));
        }
        Pending::Free
    } else if c == '=' {
        Pending::HalfEquals
    } else {
        let mut buf: Vec<char> = Vec::new();
        buf.push(c);
        proof {
            assert(buf@ =~= seq![c]);
        }
        Pending::Word(buf)
    }
}

/// Splits the DSL text into tokens; fails exactly when the text ends
/// inside a quoted literal.
#[verifier::loop_isolation(false)]
pub fn tokenize(configuration: &str) -> (r: Result<Vec<Token>, ConfigError>)
    ensures
        match r {
            Ok(tokens) => tokenize_spec(configuration@) == Some(tokens.deep_view()),
            Err(e) => tokenize_spec(configuration@) is None && e == ConfigError::UnterminatedQuote,
        },
{
    let n = configuration.unicode_len();
    let mut tokens: Vec<Token> = Vec::new();
    let mut pending = Pending::Free;
    let mut i: usize = 0;
    proof {
        assert(tokens.deep_view() =~= Seq::<TokenV>::empty());
    }
    while i < n
        invariant
            i <= n,
            lex_run(configuration@, i as int, tokens.deep_view(), pending@) == lex_run(
                configuration@,
                0,
                Seq::empty(),
                PendingV::Free,
            ),
        decreases n - i,
    {
        let c = configuration.get_char(i);
        pending = lex_step_exec(&mut tokens, pending, c);
        i = i + 1;
    }
    let ghost before = tokens.deep_view();
    match pending {
        Pending::Quote(_) => Err(ConfigError::UnterminatedQuote),
        Pending::Free => Ok(tokens),
        Pending::Word(buf) => {
            tokens.push(Token::Word(chars_to_string(&buf)));
            proof {
                assert(tokens.deep_view() =~= before.push(TokenV::Word(buf@)));
            }
            Ok(tokens)
        },
        Pending::HalfEquals => {
            tokens.push(Token::Equals);
            proof {
                assert(tokens.deep_view() =~= before.push(TokenV::Equals));
            }
            Ok(tokens)
        },
    }
}

/// The tables before anything is declared.
pub open spec fn empty_tables() -> MappingV {
    MappingV {
        matcher: Map::empty(),
        filters: Map::empty(),
        header: Seq::empty(),
        elements: Map::empty(),
        levels: Seq::empty(),
    }
}

/// Pads the per-depth directive counts with zeroes up to `level` entries.
pub open spec fn extend_levels(levels: Seq<int>, level: int) -> Seq<int>
    decreases level - levels.len(),
{
    if levels.len() >= level {
        levels
    } else {
        extend_levels(levels.push(0), level)
    }
}

/// Registering a group declaration at (name, level).
pub open spec fn declare_step(t: MappingV, name: Seq<char>, level: int) -> MappingV {
    MappingV {
        elements: t.elements.insert((name, level), Seq::empty()),
        levels: extend_levels(t.levels, level),
        ..t
    }
}

/// Registering a directive `column = "path"` inside the block `cur`.
/// The path refers to a child of the block's element, so it matches one
/// depth below the block: at depth `level + 1`.
pub open spec fn directive_step(
    t: MappingV,
    cur: (Seq<char>, int),
    level: int,
    column: Seq<char>,
    path: Seq<char>,
) -> MappingV {
    let levels = extend_levels(t.levels, level + 1);
    MappingV {
        matcher: t.matcher.insert((path, level + 1), column),
        filters: t.filters,
        header: t.header.push(column),
        elements: if t.elements.contains_key(cur) {
            t.elements.insert(cur, t.elements[cur].push(column))
        } else {
            t.elements
        },
        levels: levels.update(level, levels[level] + 1),
    }
}

/// Registering a filter `path == "literal"`, against the same child
/// depth as a directive of the block.
pub open spec fn filter_step(t: MappingV, level: int, path: Seq<char>, literal: Seq<char>) -> MappingV {
    MappingV { filters: t.filters.insert((path, level + 1), literal), ..t }
}

/// Compiles the items of one block, from token `pos` up to and past the
/// block's closing brace.  Returns the grown tables and the position
/// after the brace.
pub open spec fn compile_items(
    tokens: Seq<TokenV>,
    pos: int,
    t: MappingV,
    cur: (Seq<char>, int),
    level: int,
) -> Result<(MappingV, int), ConfigError>
    decreases tokens.len() - pos,
{
    if pos < 0 || pos >= tokens.len() {
        Err(ConfigError::UnclosedBlock)
    } else {
        match tokens[pos] {
            TokenV::RBrace => Ok((t, pos + 1)),
            TokenV::Word(w) => {
                if pos + 1 >= tokens.len() {
                    Err(ConfigError::DanglingName)
                } else {
                    match tokens[pos + 1] {
                        TokenV::Equals => if pos + 2 < tokens.len() && tokens[pos + 2] is Quoted {
                            compile_items(
                                tokens,
                                pos + 3,
                                directive_step(t, cur, level, w, tokens[pos + 2]->Quoted_0),
                                cur,
                                level,
                            )
                        } else {
                            Err(ConfigError::MalformedDirective)
                        },
                        TokenV::DoubleEquals => if pos + 2 < tokens.len() && tokens[pos
                            + 2] is Quoted {
                            compile_items(
                                tokens,
                                pos + 3,
                                filter_step(t, level, w, tokens[pos + 2]->Quoted_0),
                                cur,
                                level,
                            )
                        } else {
                            Err(ConfigError::MalformedFilter)
                        },
                        _ => Err(ConfigError::DanglingName),
                    }
                }
            },
            TokenV::Quoted(name) => {
                if pos + 1 < tokens.len() && tokens[pos + 1] is LBrace {
                    match compile_items(
                        tokens,
                        pos + 2,
                        declare_step(t, name, level + 1),
                        (name, level + 1),
                        level + 1,
                    ) {
                        Ok(inner) => if inner.1 <= pos + 2 || inner.1 > tokens.len() {
                            Err(ConfigError::UnexpectedToken)
                        } else {
                            compile_items(tokens, inner.1, inner.0, cur, level)
                        },
                        Err(e) => Err(e),
                    }
                } else {
                    Err(ConfigError::MissingBrace)
                }
            },
            _ => Err(ConfigError::UnexpectedToken),
        }
    }
}

/// The tables a token sequence denotes: one root block at depth 1,
/// nothing before it and nothing after it.
pub open spec fn compile_spec(tokens: Seq<TokenV>) -> Result<MappingV, ConfigError> {
    if tokens.len() == 0 {
        Err(ConfigError::EmptyConfig)
    } else {
        match tokens[0] {
            TokenV::Quoted(name) => if 1 < tokens.len() && tokens[1] is LBrace {
                match compile_items(
                    tokens,
                    2,
                    declare_step(empty_tables(), name, 1),
                    (name, 1),
                    1,
                ) {
                    Ok(done) => if done.1 == tokens.len() {
                        Ok(done.0)
                    } else {
                        Err(ConfigError::UnexpectedToken)
                    },
                    Err(e) => Err(e),
                }
            } else {
                Err(ConfigError::MissingBrace)
            },
            _ => Err(ConfigError::UnexpectedToken),
        }
    }
}

/// The tables a configuration text denotes, or the error that rejects it.
pub open spec fn parse_spec(s: Seq<char>) -> Result<MappingV, ConfigError> {
    match tokenize_spec(s) {
        Some(tokens) => compile_spec(tokens),
        None => Err(ConfigError::UnterminatedQuote),
    }
}

/// The per-depth directive counts as mathematical integers.
pub open spec fn levels_view(levels: Seq<usize>) -> Seq<int> {
    levels.map_values(|u: usize| u as int)
}

/// The tables as one mathematical value.
pub open spec fn tables_view(
    matcher: &PathMap,
    filters: &PathMap,
    header: &Vec<String>,
    elements: &Groups,
    levels: &Vec<usize>,
) -> MappingV {
    MappingV {
        matcher: matcher@,
        filters: filters@,
        header: header.deep_view(),
        elements: elements@,
        levels: levels_view(levels@),
    }
}

/// Compiles the body of one block, token by token, growing the five
/// tables; on a nested block it recurses one depth deeper.  Returns the
/// token position just past the block's closing brace.
#[verifier::loop_isolation(false)]
pub fn block_recurse(
    tokens: &Vec<Token>,
    pos: usize,
    matcher: &mut PathMap,
    filters: &mut PathMap,
    header: &mut Vec<String>,
    elements: &mut Groups,
    levels: &mut Vec<usize>,
    current_element: &GroupKey,
    level: usize,
) -> (r: Result<usize, ConfigError>)
    requires
        1 <= level <= pos,
        old(levels)@.len() >= level as int,
        forall|l: int| 0 <= l < old(levels)@.len() ==> old(levels)@[l] <= old(header)@.len(),
    ensures
        match r {
            Ok(p) => pos < p <= tokens@.len() && compile_items(
                tokens.deep_view(),
                pos as int,
                tables_view(old(matcher), old(filters), old(header), old(elements), old(levels)),
                current_element@,
                level as int,
            ) == Ok::<_, ConfigError>(
                (
                    tables_view(
                        final(matcher),
                        final(filters),
                        final(header),
                        final(elements),
                        final(levels),
                    ),
                    p as int,
                ),
            ) && final(levels)@.len() >= old(levels)@.len() && (forall|l: int|
                0 <= l < final(levels)@.len() ==> final(levels)@[l] <= final(header)@.len()),
            Err(e) => compile_items(
                tokens.deep_view(),
                pos as int,
                tables_view(old(matcher), old(filters), old(header), old(elements), old(levels)),
                current_element@,
                level as int,
            ) == Err::<(MappingV, int), _>(e),
        },
    decreases tokens@.len() - pos,
{
    let ghost tv = tokens.deep_view();
    let ghost target = compile_items(
        tv,
        pos as int,
        tables_view(matcher, filters, header, elements, levels),
        current_element@,
        level as int,
    );
    let ghost pos0 = pos as int;
    if pos >= tokens.len() {
        return Err(ConfigError::UnclosedBlock);
    }
    let mut pos = pos;
    loop
        invariant
            pos0 <= pos as int,
            level <= pos <= tokens@.len() + 3,
            levels@.len() >= level as int,
            forall|l: int| 0 <= l < levels@.len() ==> levels@[l] <= header@.len(),
            levels@.len() >= old(levels)@.len(),
            compile_items(
                tv,
                pos as int,
                tables_view(matcher, filters, header, elements, levels),
                current_element@,
                level as int,
            ) == target,
        decreases tokens@.len() + 3 - pos,
    {
        let ghost t_now = tables_view(matcher, filters, header, elements, levels);
        if pos >= tokens.len() {
            return Err(ConfigError::UnclosedBlock);
        }
        match &tokens[pos] {
            Token::RBrace => {
                return Ok(pos + 1);
            },
            Token::Word(w) => {
                if pos + 1 >= tokens.len() {
                    return Err(ConfigError::DanglingName);
                }
                let is_filter = match &tokens[pos + 1] {
                    Token::Equals => false,
                    Token::DoubleEquals => true,
                    _ => {
                        return Err(ConfigError::DanglingName);
                    },
                };
                if pos + 2 >= tokens.len() {
                    return Err(
                        if is_filter {
                            ConfigError::MalformedFilter
                        } else {
                            ConfigError::MalformedDirective
                        },
                    );
                }
                match &tokens[pos + 2] {
                    Token::Quoted(q) => {
                        if is_filter {
                            filters.insert(w.clone(), level + 1, q.clone());
                            proof {
                                assert(tables_view(matcher, filters, header, elements, levels)
                                    =~= filter_step(t_now, level as int, w@, q@));
                            }
                        } else {
                            matcher.insert(q.clone(), level + 1, w.clone());
                            let ghost lv_before = levels_view(levels@);
                            while levels.len() < level + 1
                                invariant
                                    extend_levels(levels_view(levels@), level as int + 1)
                                        == extend_levels(lv_before, level as int + 1),
                                    levels@.len() >= old(levels)@.len(),
                                    forall|l: int|
                                        0 <= l < levels@.len() ==> levels@[l] <= header@.len(),
                                decreases level + 1 - levels@.len(),
                            {
                                let ghost lv_now = levels_view(levels@);
                                levels.push(0);
                                proof {
                                    assert(levels_view(levels@) =~= lv_now.push(0));
                                }
                            }
                            proof {
                                assert(levels_view(levels@) == extend_levels(
                                    lv_before,
                                    level as int + 1,
                                ));
                            }
                            let ghost lv_ext = levels_view(levels@);
                            let c = levels[level];
                            header.push(w.clone());
                            let hl = header.len();
                            proof {
                                assert(c < hl);
                            }
                            levels.set(level, c + 1);
                            elements.push_column(
                                &current_element.name,
                                current_element.depth,
                                w.clone(),
                            );
                            proof {
                                assert(header.deep_view() =~= t_now.header.push(w@));
                                assert(levels_view(levels@) =~= lv_ext.update(
                                    level as int,
                                    lv_ext[level as int] + 1,
                                ));
                                assert((current_element.name@, current_element.depth as int)
                                    == current_element@);
                                assert(tables_view(matcher, filters, header, elements, levels)
                                    =~= directive_step(
                                    t_now,
                                    current_element@,
                                    level as int,
                                    w@,
                                    q@,
                                ));
                            }
                        }
                        pos = pos + 3;
                    },
                    _ => {
                        return Err(
                            if is_filter {
                                ConfigError::MalformedFilter
                            } else {
                                ConfigError::MalformedDirective
                            },
                        );
                    },
                }
            },
            Token::Quoted(name) => {
                if pos + 1 >= tokens.len() {
                    return Err(ConfigError::MissingBrace);
                }
                match &tokens[pos + 1] {
                    Token::LBrace => {},
                    _ => {
                        return Err(ConfigError::MissingBrace);
                    },
                }
                let sub_name = name.clone();
                elements.declare(sub_name.clone(), level + 1);
                let ghost lv_before = levels_view(levels@);
                while levels.len() < level + 1
                    invariant
                        extend_levels(levels_view(levels@), level as int + 1) == extend_levels(
                            lv_before,
                            level as int + 1,
                        ),
                        levels@.len() >= old(levels)@.len(),
                        forall|l: int| 0 <= l < levels@.len() ==> levels@[l] <= header@.len(),
                    decreases level + 1 - levels@.len(),
                {
                    let ghost lv_now = levels_view(levels@);
                    levels.push(0);
                    proof {
                        assert(levels_view(levels@) =~= lv_now.push(0));
                    }
                }
                proof {
                    assert(levels_view(levels@) == extend_levels(lv_before, level as int + 1));
                    assert(tables_view(matcher, filters, header, elements, levels) =~= declare_step(
                        t_now,
                        sub_name@,
                        level as int + 1,
                    ));
                }
                let sub = GroupKey { name: sub_name, depth: level + 1 };
                let inner = block_recurse(
                    tokens,
                    pos + 2,
                    matcher,
                    filters,
                    header,
                    elements,
                    levels,
                    &sub,
                    level + 1,
                );
                match inner {
                    Ok(p) => {
                        pos = p;
                    },
                    Err(e) => {
                        return Err(e);
                    },
                }
            },
            _ => {
                return Err(ConfigError::UnexpectedToken);
            },
        }
    }
}

/// Compiles a configuration text into the mapping table, or rejects it
/// with the reason; no partial configuration is ever produced.
pub fn parse(configuration: &str) -> (r: Result<Mapping, ConfigError>)
    ensures
        match r {
            Ok(m) => parse_spec(configuration@) == Ok::<_, ConfigError>(m@),
            Err(e) => parse_spec(configuration@) == Err::<MappingV, _>(e),
        },
{
    let tokens = match tokenize(configuration) {
        Ok(t) => t,
        Err(e) => {
            return Err(e);
        },
    };
    if tokens.len() == 0 {
        return Err(ConfigError::EmptyConfig);
    }
    let name = match &tokens[0] {
        Token::Quoted(n) => n.clone(),
        _ => {
            return Err(ConfigError::UnexpectedToken);
        },
    };
    if tokens.len() < 2 {
        return Err(ConfigError::MissingBrace);
    }
    match &tokens[1] {
        Token::LBrace => {},
        _ => {
            return Err(ConfigError::MissingBrace);
        },
    }
    let mut matcher = PathMap::new();
    let mut filters = PathMap::new();
    let mut header: Vec<String> = Vec::new();
    let mut elements = Groups::new();
    let mut levels: Vec<usize> = Vec::new();
    elements.declare(name.clone(), 1);
    levels.push(0);
    proof {
        assert(extend_levels(Seq::<int>::empty().push(0), 1) == Seq::<int>::empty().push(0));
        assert(extend_levels(Seq::<int>::empty(), 1) == extend_levels(
            Seq::<int>::empty().push(0),
            1,
        ));
        assert(levels_view(levels@) =~= Seq::<int>::empty().push(0));
        assert(header.deep_view() =~= Seq::<Seq<char>>::empty());
        assert(tables_view(&matcher, &filters, &header, &elements, &levels) =~= declare_step(
            empty_tables(),
            name@,
            1,
        ));
    }
    let root = GroupKey { name, depth: 1 };
    let p = match block_recurse(
        &tokens,
        2,
        &mut matcher,
        &mut filters,
        &mut header,
        &mut elements,
        &mut levels,
        &root,
        1,
    ) {
        Ok(p) => p,
        Err(e) => {
            return Err(e);
        },
    };
    if p != tokens.len() {
        return Err(ConfigError::UnexpectedToken);
    }
    let m = Mapping { matcher, filters, header, elements, levels };
    Ok(m)
}

} // verus!
