use vstd::prelude::*;
use crate::chars::{digit, letter, word_char};
use crate::expression::{infix, Tree};
use crate::parser::{
    binary, binary_rest, expression, grammatical, is_binary_operator, is_literal, is_operator,
    is_unary_operator, kind_at, lemma_tree_takes_every_token, operand, parsed, primary, ternary,
    unary, Outcome,
};
use crate::scanner::{
    blank, digits, eof, errors_from, has, lemma_digits_bound, lemma_piece_len, lemma_until_bound,
    lemma_word_chars_bound, number_len, paired, piece, remaining, single, token_piece,
    tokens_from, tokens_of, until, word_chars, ScannerError,
};
use crate::token::{spelling, Kind, TokenView};

verus! {

/// Whether `part` stands in `whole` from position `pos` on.
pub open spec fn stands_at<A>(whole: Seq<A>, pos: int, part: Seq<A>) -> bool {
    &&& 0 <= pos
    &&& pos + part.len() <= whole.len()
    &&& forall|k: int| 0 <= k < part.len() ==> whole[pos + k] == #[trigger] part[k]
}

/// Whether a lexeme may end at `pos`: the text ends there, or a space or a
/// closing parenthesis stands there.
pub open spec fn delimited(src: Seq<char>, pos: int) -> bool {
    pos >= src.len() || src[pos] == ' ' || src[pos] == ')'
}

/// Whether the scanner, given `lexeme` alone, takes all of it as one token
/// of kind `kind`.
pub open spec fn scans_alone(kind: Kind, lexeme: Seq<char>) -> bool {
    lexeme.len() > 0 && piece(lexeme, 0) == token_piece(lexeme.len(), kind)
}

/// A search for `c` that ends within a lexeme ends at the same place where
/// the lexeme stands inside a longer text.
pub proof fn lemma_until_in_place(src: Seq<char>, pos: int, lexeme: Seq<char>, k: int, c: char)
    requires
        stands_at(src, pos, lexeme),
        0 <= k <= lexeme.len(),
        k + until(lexeme, k, c) < lexeme.len(),
    ensures
        until(src, pos + k, c) == until(lexeme, k, c),
    decreases lexeme.len() - k,
{
    if k < lexeme.len() && lexeme[k] != c {
        lemma_until_in_place(src, pos, lexeme, k + 1, c);
    }
}

/// A run of digits inside a lexeme is the same run where the lexeme stands
/// inside a longer text, unless it reaches the end of the lexeme and a digit
/// follows there.
pub proof fn lemma_digits_in_place(src: Seq<char>, pos: int, lexeme: Seq<char>, k: int)
    requires
        stands_at(src, pos, lexeme),
        0 <= k <= lexeme.len(),
        k + digits(lexeme, k) < lexeme.len() || pos + lexeme.len() >= src.len() || !digit(
            src[pos + lexeme.len()],
        ),
    ensures
        digits(src, pos + k) == digits(lexeme, k),
    decreases lexeme.len() - k,
{
    lemma_digits_bound(lexeme, k);
    if k < lexeme.len() && digit(lexeme[k]) {
        lemma_digits_in_place(src, pos, lexeme, k + 1);
    }
}

/// A run of word characters inside a lexeme is the same run where the lexeme
/// stands inside a longer text, unless it reaches the end of the lexeme and
/// a word character follows there.
pub proof fn lemma_word_chars_in_place(src: Seq<char>, pos: int, lexeme: Seq<char>, k: int)
    requires
        stands_at(src, pos, lexeme),
        0 <= k <= lexeme.len(),
        k + word_chars(lexeme, k) < lexeme.len() || pos + lexeme.len() >= src.len() || !word_char(
            src[pos + lexeme.len()],
        ),
    ensures
        word_chars(src, pos + k) == word_chars(lexeme, k),
    decreases lexeme.len() - k,
{
    lemma_word_chars_bound(lexeme, k);
    if k < lexeme.len() && word_char(lexeme[k]) {
        lemma_word_chars_in_place(src, pos, lexeme, k + 1);
    }
}

/// A lexeme that scans alone as one token scans as the same token where it
/// stands inside a longer text, if it is a single character that is a token
/// by itself or if a delimiter follows it.
pub proof fn lemma_scans_in_place(src: Seq<char>, pos: int, kind: Kind, lexeme: Seq<char>)
    requires
        stands_at(src, pos, lexeme),
        scans_alone(kind, lexeme),
        single(lexeme[0]) is Some || delimited(src, pos + lexeme.len()),
    ensures
        piece(src, pos) == token_piece(lexeme.len(), kind),
        src.subrange(pos, pos + lexeme.len()) == lexeme,
{
    let c = lexeme[0];
    let n = lexeme.len() as int;
    assert(src[pos] == c);
    assert(src.subrange(pos, pos + n) =~= lexeme);
    lemma_piece_len(lexeme, 0);
    if single(c) is Some {
    } else if paired(c) is Some {
        if has(lexeme, 1, '=') {
            assert(src[pos + 1] == lexeme[1]);
        }
    } else if c == '/' {
    } else if c == '"' {
        let inner = until(lexeme, 1, '"') as int;
        lemma_until_bound(lexeme, 1, '"');
        lemma_until_in_place(src, pos, lexeme, 1, '"');
        assert(src.subrange(pos + 1, pos + 1 + inner) =~= lexeme.subrange(1, 1 + inner));
    } else if blank(c) {
    } else if digit(c) {
        let whole = digits(lexeme, 0) as int;
        lemma_digits_bound(lexeme, 0);
        lemma_digits_bound(lexeme, whole + 1);
        lemma_digits_in_place(src, pos, lexeme, 0);
        if has(lexeme, whole, '.') {
            assert(src[pos + whole] == lexeme[whole]);
            lemma_digits_in_place(src, pos, lexeme, whole + 1);
        } else {
            assert(whole == n);
        }
        assert(number_len(src, pos) == n);
        assert(lexeme.subrange(0, n) =~= lexeme);
    } else if letter(c) || c == '_' {
        lemma_word_chars_bound(lexeme, 1);
        lemma_word_chars_in_place(src, pos, lexeme, 1);
        assert(lexeme.subrange(0, n) =~= lexeme);
    } else {
    }
}

/// A token without its line.
pub open spec fn unlined(token: TokenView) -> TokenView {
    TokenView { kind: token.kind, lexeme: token.lexeme, line: 0 }
}

/// The tokens of `tokens` without their lines.
pub open spec fn plain(tokens: Seq<TokenView>) -> Seq<TokenView> {
    Seq::new(tokens.len(), |i: int| unlined(tokens[i]))
}

/// The token of kind `kind` as it is written, without a line.
pub open spec fn mark(kind: Kind) -> TokenView {
    TokenView { kind, lexeme: spelling(kind), line: 0 }
}

/// Whether `tree` is a tree of the grammar whose infix form can be read
/// back: each literal is a number, a string or an identifier that the
/// scanner gives for its own lexeme, each prefix operator is `!` or `-`, and
/// each binary operator is one of the ten.
pub open spec fn printable(tree: Tree) -> bool
    decreases tree,
{
    match tree {
        Tree::Binary(left, operator, right) => is_binary_operator(operator) && printable(*left)
            && printable(*right),
        Tree::Unary(operator, operand) => is_unary_operator(operator) && printable(*operand),
        Tree::Grouping(inner) => printable(*inner),
        Tree::Literal(token) => is_literal(token.kind) && scans_alone(token.kind, token.lexeme),
        Tree::Ternary(condition, then_branch, else_branch) => printable(*condition) && printable(
            *then_branch,
        ) && printable(*else_branch),
    }
}

/// The tokens of the infix form of `tree`, without lines.
pub open spec fn written(tree: Tree) -> Seq<TokenView>
    decreases tree,
{
    match tree {
        Tree::Binary(left, operator, right) => seq![mark(Kind::LeftParen)] + written(*left)
            + seq![mark(operator)] + written(*right) + seq![mark(Kind::RightParen)],
        Tree::Unary(operator, operand) => seq![mark(Kind::LeftParen), mark(operator)] + written(
            *operand,
        ) + seq![mark(Kind::RightParen)],
        Tree::Grouping(inner) => seq![mark(Kind::LeftParen)] + written(*inner) + seq![
            mark(Kind::RightParen),
        ],
        Tree::Literal(token) => seq![unlined(token)],
        Tree::Ternary(condition, then_branch, else_branch) => seq![mark(Kind::LeftParen)]
            + written(*condition) + seq![mark(Kind::Question)] + written(*then_branch) + seq![
            mark(Kind::Colon),
        ] + written(*else_branch) + seq![mark(Kind::RightParen)],
    }
}

/// The tree without its groupings and without the lines of its literals.
pub open spec fn skeleton(tree: Tree) -> Tree
    decreases tree,
{
    match tree {
        Tree::Binary(left, operator, right) => Tree::Binary(
            Box::new(skeleton(*left)),
            operator,
            Box::new(skeleton(*right)),
        ),
        Tree::Unary(operator, operand) => Tree::Unary(operator, Box::new(skeleton(*operand))),
        Tree::Grouping(inner) => skeleton(*inner),
        Tree::Literal(token) => Tree::Literal(unlined(token)),
        Tree::Ternary(condition, then_branch, else_branch) => Tree::Ternary(
            Box::new(skeleton(*condition)),
            Box::new(skeleton(*then_branch)),
            Box::new(skeleton(*else_branch)),
        ),
    }
}

/// The operators, the parentheses, the question mark and the colon scan
/// alone as they are spelled.
pub proof fn lemma_marks_scan_alone(kind: Kind)
    requires
        is_binary_operator(kind) || is_unary_operator(kind) || kind == Kind::LeftParen || kind
            == Kind::RightParen || kind == Kind::Question || kind == Kind::Colon,
    ensures
        scans_alone(kind, spelling(kind)),
        single(spelling(kind)[0]) is Some || spelling(kind).len() <= 2,
{
    reveal_strlit("(");
    reveal_strlit(")");
    reveal_strlit("?");
    reveal_strlit(":");
    reveal_strlit("-");
    reveal_strlit("+");
    reveal_strlit("/");
    reveal_strlit("*");
    reveal_strlit("!");
    reveal_strlit("!=");
    reveal_strlit("==");
    reveal_strlit(">");
    reveal_strlit(">=");
    reveal_strlit("<");
    reveal_strlit("<=");
}

/// Whatever stands in a sequence stands there part by part.
pub proof fn lemma_part_at<A>(src: Seq<A>, pos: int, before: Seq<A>, part: Seq<A>, behind: Seq<A>)
    requires
        stands_at(src, pos, before + part + behind),
    ensures
        stands_at(src, pos + before.len(), part),
{
    let whole = before + part + behind;
    assert forall|k: int| 0 <= k < part.len() implies src[pos + before.len() + k] == #[trigger] part[k] by {
        assert(whole[before.len() + k] == part[k]);
    }
}

/// Where a lexeme stands that scans alone and is delimited, the scanner
/// takes it as its token and goes on behind it.
pub proof fn lemma_take_token(src: Seq<char>, pos: int, kind: Kind, lexeme: Seq<char>)
    requires
        stands_at(src, pos, lexeme),
        scans_alone(kind, lexeme),
        single(lexeme[0]) is Some || delimited(src, pos + lexeme.len()),
    ensures
        plain(tokens_from(src, pos)) == seq![TokenView { kind, lexeme, line: 0 }] + plain(
            tokens_from(src, pos + lexeme.len()),
        ),
        errors_from(src, pos) == errors_from(src, pos + lexeme.len()),
{
    lemma_scans_in_place(src, pos, kind, lexeme);
    let p = piece(src, pos);
    let end = pos + lexeme.len();
    assert(tokens_from(src, pos) == tokens_of(src, pos, p) + tokens_from(src, end));
    assert(plain(tokens_from(src, pos)) =~= seq![TokenView { kind, lexeme, line: 0 }] + plain(
        tokens_from(src, end),
    ));
    assert(errors_from(src, pos) =~= errors_from(src, end));
}

/// The scanner passes over a space.
pub proof fn lemma_skip_space(src: Seq<char>, pos: int)
    requires
        0 <= pos < src.len(),
        src[pos] == ' ',
    ensures
        tokens_from(src, pos) == tokens_from(src, pos + 1),
        errors_from(src, pos) == errors_from(src, pos + 1),
{
    assert(tokens_from(src, pos) =~= tokens_from(src, pos + 1));
    assert(errors_from(src, pos) =~= errors_from(src, pos + 1));
}

/// Where a sequence of three parts stands, its parts stand one behind the
/// other.
pub proof fn lemma_three_parts_at<A>(src: Seq<A>, pos: int, a: Seq<A>, b: Seq<A>, c: Seq<A>)
    requires
        stands_at(src, pos, a + b + c),
    ensures
        stands_at(src, pos, a),
        stands_at(src, pos + a.len(), b),
        stands_at(src, pos + a.len() + b.len(), c),
{
    let whole = a + b + c;
    assert(whole =~= Seq::<A>::empty() + a + (b + c));
    lemma_part_at(src, pos, Seq::<A>::empty(), a, b + c);
    lemma_part_at(src, pos, a, b, c);
    assert(whole =~= (a + b) + c + Seq::<A>::empty());
    lemma_part_at(src, pos, a + b, c, Seq::<A>::empty());
}

/// One token, then a sequence of tokens, then what follows: in one sequence.
pub proof fn lemma_chain<A>(first: Seq<A>, second: Seq<A>, rest: Seq<A>, whole: Seq<A>, tail: Seq<A>)
    requires
        whole == first + tail,
        tail == second + rest,
    ensures
        whole == (first + second) + rest,
{
    assert(whole =~= (first + second) + rest);
}

/// The scanner reads back a literal.
proof fn lemma_scan_literal(src: Seq<char>, pos: int, tree: Tree)
    requires
        tree is Literal,
        printable(tree),
        stands_at(src, pos, infix(tree)),
        delimited(src, pos + infix(tree).len()),
    ensures
        plain(tokens_from(src, pos)) == written(tree) + plain(
            tokens_from(src, pos + infix(tree).len()),
        ),
        errors_from(src, pos) == errors_from(src, pos + infix(tree).len()),
{
    let token = tree->Literal_0;
    lemma_take_token(src, pos, token.kind, token.lexeme);
}

/// The scanner reads back a grouping.
proof fn lemma_scan_grouping(src: Seq<char>, pos: int, tree: Tree)
    requires
        tree is Grouping,
        printable(tree),
        stands_at(src, pos, infix(tree)),
        delimited(src, pos + infix(tree).len()),
    ensures
        plain(tokens_from(src, pos)) == written(tree) + plain(
            tokens_from(src, pos + infix(tree).len()),
        ),
        errors_from(src, pos) == errors_from(src, pos + infix(tree).len()),
    decreases tree, 0nat,
{
    let inner = *tree->Grouping_0;
    let open = "("@;
    let close = ")"@;
    let a = infix(inner);
    let p1 = pos + 1;
    let p2 = p1 + a.len();
    let end = p2 + 1;
    assert(open.len() == 1 && close.len() == 1 && close[0] == ')') by {
        reveal_strlit("(");
        reveal_strlit(")");
    }
    lemma_three_parts_at(src, pos, open, a, close);
    assert(src[p2] == close[0]);
    lemma_marks_scan_alone(Kind::LeftParen);
    lemma_marks_scan_alone(Kind::RightParen);
    lemma_take_token(src, pos, Kind::LeftParen, open);
    lemma_scan_written(src, p1, inner);
    lemma_take_token(src, p2, Kind::RightParen, close);
    let t0 = plain(tokens_from(src, pos));
    let t1 = plain(tokens_from(src, p1));
    let t2 = plain(tokens_from(src, p2));
    let rest = plain(tokens_from(src, end));
    let lp = seq![mark(Kind::LeftParen)];
    let rp = seq![mark(Kind::RightParen)];
    lemma_chain(lp, written(inner), t2, t0, t1);
    lemma_chain(lp + written(inner), rp, rest, t0, t2);
}

/// The scanner reads back a prefix operator and its operand.
proof fn lemma_scan_unary(src: Seq<char>, pos: int, tree: Tree)
    requires
        tree is Unary,
        printable(tree),
        stands_at(src, pos, infix(tree)),
        delimited(src, pos + infix(tree).len()),
    ensures
        plain(tokens_from(src, pos)) == written(tree) + plain(
            tokens_from(src, pos + infix(tree).len()),
        ),
        errors_from(src, pos) == errors_from(src, pos + infix(tree).len()),
    decreases tree, 0nat,
{
    let operator = tree->Unary_0;
    let operand = *tree->Unary_1;
    let open = "("@;
    let close = ")"@;
    let space = " "@;
    let o = spelling(operator);
    let a = infix(operand);
    let p1 = pos + 1;
    let p2 = p1 + o.len();
    let p3 = p2 + 1;
    let p4 = p3 + a.len();
    let end = p4 + 1;
    assert(open.len() == 1 && close.len() == 1 && close[0] == ')' && space.len() == 1 && space[0]
        == ' ') by {
        reveal_strlit("(");
        reveal_strlit(")");
        reveal_strlit(" ");
    }
    assert(infix(tree) =~= (open + o + space) + a + close);
    lemma_three_parts_at(src, pos, open + o + space, a, close);
    lemma_three_parts_at(src, pos, open, o, space);
    assert(src[p2] == space[0]);
    assert(src[p4] == close[0]);
    lemma_marks_scan_alone(Kind::LeftParen);
    lemma_marks_scan_alone(Kind::RightParen);
    lemma_marks_scan_alone(operator);
    lemma_take_token(src, pos, Kind::LeftParen, open);
    lemma_take_token(src, p1, operator, o);
    lemma_skip_space(src, p2);
    lemma_scan_written(src, p3, operand);
    lemma_take_token(src, p4, Kind::RightParen, close);
    let t0 = plain(tokens_from(src, pos));
    let t1 = plain(tokens_from(src, p1));
    let t3 = plain(tokens_from(src, p3));
    let t4 = plain(tokens_from(src, p4));
    let rest = plain(tokens_from(src, end));
    let lp = seq![mark(Kind::LeftParen)];
    let op = seq![mark(operator)];
    let rp = seq![mark(Kind::RightParen)];
    lemma_chain(lp, op, t3, t0, t1);
    lemma_chain(lp + op, written(operand), t4, t0, t3);
    lemma_chain(lp + op + written(operand), rp, rest, t0, t4);
    assert(lp + op =~= seq![mark(Kind::LeftParen), mark(operator)]);
}

/// The scanner reads back a binary operator and its operands.
proof fn lemma_scan_binary(src: Seq<char>, pos: int, tree: Tree)
    requires
        tree is Binary,
        printable(tree),
        stands_at(src, pos, infix(tree)),
        delimited(src, pos + infix(tree).len()),
    ensures
        plain(tokens_from(src, pos)) == written(tree) + plain(
            tokens_from(src, pos + infix(tree).len()),
        ),
        errors_from(src, pos) == errors_from(src, pos + infix(tree).len()),
    decreases tree, 0nat,
{
    let left = *tree->Binary_0;
    let operator = tree->Binary_1;
    let right = *tree->Binary_2;
    let open = "("@;
    let close = ")"@;
    let space = " "@;
    let a = infix(left);
    let o = spelling(operator);
    let b = infix(right);
    let p1 = pos + 1;
    let p2 = p1 + a.len();
    let p3 = p2 + 1;
    let p4 = p3 + o.len();
    let p5 = p4 + 1;
    let p6 = p5 + b.len();
    let end = p6 + 1;
    assert(open.len() == 1 && close.len() == 1 && close[0] == ')' && space.len() == 1 && space[0]
        == ' ') by {
        reveal_strlit("(");
        reveal_strlit(")");
        reveal_strlit(" ");
    }
    assert(infix(tree) =~= (open + a + space + o + space) + b + close);
    lemma_three_parts_at(src, pos, open + a + space + o + space, b, close);
    assert(open + a + space + o + space =~= (open + a + space) + o + space);
    lemma_three_parts_at(src, pos, open + a + space, o, space);
    lemma_three_parts_at(src, pos, open, a, space);
    assert(src[p2] == space[0]);
    assert(src[p4] == space[0]);
    assert(src[p6] == close[0]);
    lemma_marks_scan_alone(Kind::LeftParen);
    lemma_marks_scan_alone(Kind::RightParen);
    lemma_marks_scan_alone(operator);
    lemma_take_token(src, pos, Kind::LeftParen, open);
    lemma_scan_written(src, p1, left);
    lemma_skip_space(src, p2);
    lemma_take_token(src, p3, operator, o);
    lemma_skip_space(src, p4);
    lemma_scan_written(src, p5, right);
    lemma_take_token(src, p6, Kind::RightParen, close);
    let t0 = plain(tokens_from(src, pos));
    let t1 = plain(tokens_from(src, p1));
    let t3 = plain(tokens_from(src, p3));
    let t5 = plain(tokens_from(src, p5));
    let t6 = plain(tokens_from(src, p6));
    let rest = plain(tokens_from(src, end));
    let lp = seq![mark(Kind::LeftParen)];
    let op = seq![mark(operator)];
    let rp = seq![mark(Kind::RightParen)];
    lemma_chain(lp, written(left), t3, t0, t1);
    lemma_chain(lp + written(left), op, t5, t0, t3);
    lemma_chain(lp + written(left) + op, written(right), t6, t0, t5);
    lemma_chain(lp + written(left) + op + written(right), rp, rest, t0, t6);
}

/// Where the parts of a ternary's infix form stand in a text.
proof fn lemma_ternary_layout(src: Seq<char>, pos: int, a: Seq<char>, b: Seq<char>, c: Seq<char>)
    requires
        stands_at(src, pos, "("@ + a + " ? "@ + b + " : "@ + c + ")"@),
    ensures
        stands_at(src, pos, "("@),
        stands_at(src, pos + 1, a),
        stands_at(src, pos + 1 + a.len(), " ? "@),
        stands_at(src, pos + 1 + a.len() + 3, b),
        stands_at(src, pos + 1 + a.len() + 3 + b.len(), " : "@),
        stands_at(src, pos + 1 + a.len() + 3 + b.len() + 3, c),
        stands_at(src, pos + 1 + a.len() + 3 + b.len() + 3 + c.len(), ")"@),
        ("("@ + a + " ? "@ + b + " : "@ + c + ")"@).len() == a.len() + b.len() + c.len() + 8,
{
    let open = "("@;
    let close = ")"@;
    let q = " ? "@;
    let e = " : "@;
    reveal_strlit("(");
    reveal_strlit(")");
    reveal_strlit(" ? ");
    reveal_strlit(" : ");
    let whole = open + a + q + b + e + c + close;
    assert(whole =~= (open + a + q + b + e) + c + close);
    lemma_three_parts_at(src, pos, open + a + q + b + e, c, close);
    assert(open + a + q + b + e =~= (open + a + q) + b + e);
    lemma_three_parts_at(src, pos, open + a + q, b, e);
    lemma_three_parts_at(src, pos, open, a, q);
}

/// The scanner takes a question mark or a colon that stands between two
/// spaces.
proof fn lemma_take_spaced(src: Seq<char>, pos: int, kind: Kind, text: Seq<char>)
    requires
        kind == Kind::Question && text == " ? "@ || kind == Kind::Colon && text == " : "@,
        stands_at(src, pos, text),
    ensures
        plain(tokens_from(src, pos)) == seq![mark(kind)] + plain(tokens_from(src, pos + 3)),
        errors_from(src, pos) == errors_from(src, pos + 3),
{
    reveal_strlit(" ? ");
    reveal_strlit(" : ");
    reveal_strlit("?");
    reveal_strlit(":");
    assert(src[pos] == text[0]);
    assert(src[pos + 1] == text[1]);
    assert(src[pos + 2] == text[2]);
    lemma_marks_scan_alone(kind);
    lemma_skip_space(src, pos);
    lemma_take_token(src, pos + 1, kind, spelling(kind));
    lemma_skip_space(src, pos + 2);
}

/// The scanner reads back a ternary.
proof fn lemma_scan_ternary(src: Seq<char>, pos: int, tree: Tree)
    requires
        tree is Ternary,
        printable(tree),
        stands_at(src, pos, infix(tree)),
        delimited(src, pos + infix(tree).len()),
    ensures
        plain(tokens_from(src, pos)) == written(tree) + plain(
            tokens_from(src, pos + infix(tree).len()),
        ),
        errors_from(src, pos) == errors_from(src, pos + infix(tree).len()),
    decreases tree, 0nat,
{
    let condition = *tree->Ternary_0;
    let then_branch = *tree->Ternary_1;
    let else_branch = *tree->Ternary_2;
    let a = infix(condition);
    let b = infix(then_branch);
    let c = infix(else_branch);
    let p1 = pos + 1;
    let p2 = p1 + a.len();
    let p3 = p2 + 3;
    let p4 = p3 + b.len();
    let p5 = p4 + 3;
    let p6 = p5 + c.len();
    let end = p6 + 1;
    lemma_ternary_layout(src, pos, a, b, c);
    assert(delimited(src, p2) && delimited(src, p4) && delimited(src, p6)) by {
        reveal_strlit(")");
        reveal_strlit(" ? ");
        reveal_strlit(" : ");
        assert(src[p2] == " ? "@[0]);
        assert(src[p4] == " : "@[0]);
        assert(src[p6] == ")"@[0]);
    }
    lemma_marks_scan_alone(Kind::LeftParen);
    lemma_marks_scan_alone(Kind::RightParen);
    assert(")"@.len() == 1) by {
        reveal_strlit(")");
    }
    lemma_take_token(src, pos, Kind::LeftParen, "("@);
    lemma_scan_written(src, p1, condition);
    lemma_take_spaced(src, p2, Kind::Question, " ? "@);
    lemma_scan_written(src, p3, then_branch);
    lemma_take_spaced(src, p4, Kind::Colon, " : "@);
    lemma_scan_written(src, p5, else_branch);
    lemma_take_token(src, p6, Kind::RightParen, ")"@);
    let t0 = plain(tokens_from(src, pos));
    let t1 = plain(tokens_from(src, p1));
    let t2 = plain(tokens_from(src, p2));
    let t3 = plain(tokens_from(src, p3));
    let t4 = plain(tokens_from(src, p4));
    let t5 = plain(tokens_from(src, p5));
    let t6 = plain(tokens_from(src, p6));
    let rest = plain(tokens_from(src, end));
    let lp = seq![mark(Kind::LeftParen)];
    let qm = seq![mark(Kind::Question)];
    let cm = seq![mark(Kind::Colon)];
    let rp = seq![mark(Kind::RightParen)];
    let wa = written(condition);
    let wb = written(then_branch);
    let wc = written(else_branch);
    lemma_chain(lp, wa, t2, t0, t1);
    lemma_chain(lp + wa, qm, t3, t0, t2);
    lemma_chain(lp + wa + qm, wb, t4, t0, t3);
    lemma_chain(lp + wa + qm + wb, cm, t5, t0, t4);
    lemma_chain(lp + wa + qm + wb + cm, wc, t6, t0, t5);
    lemma_chain(lp + wa + qm + wb + cm + wc, rp, rest, t0, t6);
}

/// Where the infix form of a printable tree stands in a text and is
/// delimited, the scanner takes its tokens one by one, reports nothing, and
/// goes on behind it.
pub proof fn lemma_scan_written(src: Seq<char>, pos: int, tree: Tree)
    requires
        printable(tree),
        stands_at(src, pos, infix(tree)),
        delimited(src, pos + infix(tree).len()),
    ensures
        plain(tokens_from(src, pos)) == written(tree) + plain(
            tokens_from(src, pos + infix(tree).len()),
        ),
        errors_from(src, pos) == errors_from(src, pos + infix(tree).len()),
    decreases tree, 1nat,
{
    match tree {
        Tree::Literal(_) => lemma_scan_literal(src, pos, tree),
        Tree::Grouping(_) => lemma_scan_grouping(src, pos, tree),
        Tree::Unary(_, _) => lemma_scan_unary(src, pos, tree),
        Tree::Binary(_, _, _) => lemma_scan_binary(src, pos, tree),
        Tree::Ternary(_, _, _) => lemma_scan_ternary(src, pos, tree),
    }
}

/// Whether `outcome` is a tree that is `tree` but for groupings and lines,
/// read from as many tokens as the infix form of `tree` has.
pub open spec fn reads(outcome: Outcome, tree: Tree) -> bool {
    outcome matches Ok((again, taken)) && taken == written(tree).len() && skeleton(again)
        == skeleton(tree)
}

/// Whether no binary operator and no question mark is of kind `kind`, so
/// that an expression ends before a token of that kind.
pub open spec fn ends_expression(kind: Kind) -> bool {
    !is_binary_operator(kind) && kind != Kind::Question
}

/// Whether `kind` is no operator of the levels `low` to `high`.
pub open spec fn stops(low: nat, high: nat, kind: Kind) -> bool {
    &&& low <= 0 <= high ==> !is_operator(0, kind)
    &&& low <= 1 <= high ==> !is_operator(1, kind)
    &&& low <= 2 <= high ==> !is_operator(2, kind)
    &&& low <= 3 <= high ==> !is_operator(3, kind)
}

/// An operand of level `low`, before a token that is no operator of the
/// levels `low` to `high`, is the whole expression of level `high`.
pub proof fn lemma_climb(tokens: Seq<TokenView>, pos: int, low: nat, high: nat, tree: Tree, taken: nat)
    requires
        low <= high <= 3,
        operand(tokens, pos, low) == Outcome::Ok((tree, taken)),
        stops(low, high, kind_at(tokens, pos + taken)),
    ensures
        binary(tokens, pos, high) == Outcome::Ok((tree, taken)),
    decreases high - low,
{
    assert(!is_operator(low, kind_at(tokens, pos + taken)));
    assert(binary_rest(tokens, pos + taken, low, tree) == Outcome::Ok((tree, 0)));
    assert(binary(tokens, pos, low) == Outcome::Ok((tree, taken)));
    if low < high {
        assert(operand(tokens, pos, low + 1) == binary(tokens, pos, low));
        lemma_climb(tokens, pos, low + 1, high, tree, taken);
    }
}

/// A unary expression before a token that ends an expression is the whole
/// ternary expression.
pub proof fn lemma_whole_expression(tokens: Seq<TokenView>, pos: int, tree: Tree, taken: nat)
    requires
        unary(tokens, pos) == Outcome::Ok((tree, taken)),
        ends_expression(kind_at(tokens, pos + taken)),
    ensures
        ternary(tokens, pos) == Outcome::Ok((tree, taken)),
        binary(tokens, pos, 3) == Outcome::Ok((tree, taken)),
{
    assert(operand(tokens, pos, 0) == unary(tokens, pos));
    lemma_climb(tokens, pos, 0, 3, tree, taken);
    assert(ternary(tokens, pos) == Outcome::Ok((tree, taken)));
}

/// The level of the binary operator `kind`.
pub open spec fn level_of(kind: Kind) -> nat {
    if is_operator(0, kind) {
        0
    } else if is_operator(1, kind) {
        1
    } else if is_operator(2, kind) {
        2
    } else {
        3
    }
}

/// Two unary expressions with a binary operator between them, before a
/// token that ends an expression, are the expression of that operator.
pub proof fn lemma_binary_expression(
    tokens: Seq<TokenView>,
    pos: int,
    left: Tree,
    first: nat,
    right: Tree,
    second: nat,
)
    requires
        unary(tokens, pos) == Outcome::Ok((left, first)),
        is_binary_operator(kind_at(tokens, pos + first)),
        unary(tokens, pos + first + 1) == Outcome::Ok((right, second)),
        ends_expression(kind_at(tokens, pos + first + 1 + second)),
    ensures
        ternary(tokens, pos) == Outcome::Ok(
            (
                Tree::Binary(Box::new(left), kind_at(tokens, pos + first), Box::new(right)),
                first + 1 + second,
            ),
        ),
{
    let operator = kind_at(tokens, pos + first);
    let level = level_of(operator);
    let at = pos + first;
    let behind = at + 1 + second;
    let tree = Tree::Binary(Box::new(left), operator, Box::new(right));
    assert(operand(tokens, pos, 0) == unary(tokens, pos));
    assert(operand(tokens, at + 1, 0) == unary(tokens, at + 1));
    if level > 0 {
        lemma_climb(tokens, pos, 0, (level - 1) as nat, left, first);
        lemma_climb(tokens, at + 1, 0, (level - 1) as nat, right, second);
        assert(operand(tokens, pos, level) == binary(tokens, pos, (level - 1) as nat));
        assert(operand(tokens, at + 1, level) == binary(tokens, at + 1, (level - 1) as nat));
    }
    assert(operand(tokens, pos, level) == Outcome::Ok((left, first)));
    assert(operand(tokens, at + 1, level) == Outcome::Ok((right, second)));
    assert(binary_rest(tokens, behind, level, tree) == Outcome::Ok((tree, 0)));
    assert(binary_rest(tokens, at, level, left) == Outcome::Ok((tree, 1 + second)));
    assert(binary(tokens, pos, level) == Outcome::Ok((tree, first + 1 + second)));
    if level < 3 {
        assert(operand(tokens, pos, level + 1) == binary(tokens, pos, level));
        lemma_climb(tokens, pos, level + 1, 3, tree, first + 1 + second);
    }
    assert(ternary(tokens, pos) == Outcome::Ok((tree, first + 1 + second)));
}

/// The token at `pos` is, but for its line, `mark`.
proof fn lemma_mark_at(tokens: Seq<TokenView>, pos: int, mark: TokenView)
    requires
        stands_at(plain(tokens), pos, seq![mark]),
    ensures
        0 <= pos < tokens.len(),
        unlined(tokens[pos]) == mark,
        kind_at(tokens, pos) == mark.kind,
{
    assert(seq![mark][0] == mark);
    assert(plain(tokens)[pos + 0] == seq![mark][0]);
}

/// The parser reads back a literal.
proof fn lemma_parse_literal(tokens: Seq<TokenView>, pos: int, tree: Tree)
    requires
        tree is Literal,
        printable(tree),
        stands_at(plain(tokens), pos, written(tree)),
    ensures
        reads(primary(tokens, pos), tree),
        !is_unary_operator(kind_at(tokens, pos)),
{
    lemma_mark_at(tokens, pos, unlined(tree->Literal_0));
}

/// The parser reads back a grouping.
proof fn lemma_parse_grouping(tokens: Seq<TokenView>, pos: int, tree: Tree)
    requires
        tree is Grouping,
        printable(tree),
        stands_at(plain(tokens), pos, written(tree)),
    ensures
        reads(primary(tokens, pos), tree),
        !is_unary_operator(kind_at(tokens, pos)),
    decreases tree, 0nat,
{
    let inner = *tree->Grouping_0;
    let lp = seq![mark(Kind::LeftParen)];
    let rp = seq![mark(Kind::RightParen)];
    let w = written(inner);
    lemma_three_parts_at(plain(tokens), pos, lp, w, rp);
    lemma_mark_at(tokens, pos, mark(Kind::LeftParen));
    lemma_mark_at(tokens, pos + 1 + w.len(), mark(Kind::RightParen));
    lemma_parse_written(tokens, pos + 1, inner);
    let (again, taken) = primary(tokens, pos + 1)->Ok_0;
    assert(unary(tokens, pos + 1) == primary(tokens, pos + 1));
    lemma_whole_expression(tokens, pos + 1, again, taken);
    assert(primary(tokens, pos) == Outcome::Ok((Tree::Grouping(Box::new(again)), taken + 2)));
}

/// The parser reads back a prefix operator and its operand.
proof fn lemma_parse_unary(tokens: Seq<TokenView>, pos: int, tree: Tree)
    requires
        tree is Unary,
        printable(tree),
        stands_at(plain(tokens), pos, written(tree)),
    ensures
        reads(primary(tokens, pos), tree),
        !is_unary_operator(kind_at(tokens, pos)),
    decreases tree, 0nat,
{
    let operator = tree->Unary_0;
    let operand = *tree->Unary_1;
    let lp = seq![mark(Kind::LeftParen)];
    let op = seq![mark(operator)];
    let rp = seq![mark(Kind::RightParen)];
    let w = written(operand);
    assert(seq![mark(Kind::LeftParen), mark(operator)] =~= lp + op);
    assert(written(tree) =~= (lp + op) + w + rp);
    lemma_three_parts_at(plain(tokens), pos, lp + op, w, rp);
    assert(lp + op =~= lp + op + Seq::<TokenView>::empty());
    lemma_three_parts_at(plain(tokens), pos, lp, op, Seq::<TokenView>::empty());
    lemma_mark_at(tokens, pos, mark(Kind::LeftParen));
    lemma_mark_at(tokens, pos + 1, mark(operator));
    lemma_mark_at(tokens, pos + 2 + w.len(), mark(Kind::RightParen));
    lemma_parse_written(tokens, pos + 2, operand);
    let (again, taken) = primary(tokens, pos + 2)->Ok_0;
    assert(unary(tokens, pos + 2) == primary(tokens, pos + 2));
    let whole = Tree::Unary(operator, Box::new(again));
    assert(unary(tokens, pos + 1) == Outcome::Ok((whole, taken + 1)));
    lemma_whole_expression(tokens, pos + 1, whole, taken + 1);
    assert(primary(tokens, pos) == Outcome::Ok((Tree::Grouping(Box::new(whole)), taken + 3)));
    assert(skeleton(Tree::Grouping(Box::new(whole))) == skeleton(whole));
    assert(skeleton(whole) == Tree::Unary(operator, Box::new(skeleton(again))));
    assert(written(tree).len() == taken + 3);
}

/// The parser reads back a binary operator and its operands.
proof fn lemma_parse_binary(tokens: Seq<TokenView>, pos: int, tree: Tree)
    requires
        tree is Binary,
        printable(tree),
        stands_at(plain(tokens), pos, written(tree)),
    ensures
        reads(primary(tokens, pos), tree),
        !is_unary_operator(kind_at(tokens, pos)),
    decreases tree, 0nat,
{
    let left = *tree->Binary_0;
    let operator = tree->Binary_1;
    let right = *tree->Binary_2;
    let lp = seq![mark(Kind::LeftParen)];
    let op = seq![mark(operator)];
    let rp = seq![mark(Kind::RightParen)];
    let wl = written(left);
    let wr = written(right);
    let p1 = pos + 1;
    let p2 = p1 + wl.len();
    let p3 = p2 + 1;
    let p4 = p3 + wr.len();
    assert(written(tree) =~= (lp + wl + op) + wr + rp);
    lemma_three_parts_at(plain(tokens), pos, lp + wl + op, wr, rp);
    lemma_three_parts_at(plain(tokens), pos, lp, wl, op);
    lemma_mark_at(tokens, pos, mark(Kind::LeftParen));
    lemma_mark_at(tokens, p2, mark(operator));
    lemma_mark_at(tokens, p4, mark(Kind::RightParen));
    lemma_parse_written(tokens, p1, left);
    lemma_parse_written(tokens, p3, right);
    let (first, taken_first) = primary(tokens, p1)->Ok_0;
    let (second, taken_second) = primary(tokens, p3)->Ok_0;
    assert(unary(tokens, p1) == primary(tokens, p1));
    assert(unary(tokens, p3) == primary(tokens, p3));
    lemma_binary_expression(tokens, p1, first, taken_first, second, taken_second);
    let whole = Tree::Binary(Box::new(first), operator, Box::new(second));
    assert(primary(tokens, pos) == Outcome::Ok(
        (Tree::Grouping(Box::new(whole)), taken_first + 1 + taken_second + 2),
    ));
    assert(skeleton(Tree::Grouping(Box::new(whole))) == skeleton(whole));
    assert(skeleton(whole) == Tree::Binary(
        Box::new(skeleton(first)),
        operator,
        Box::new(skeleton(second)),
    ));
    assert(written(tree).len() == taken_first + 1 + taken_second + 2);
}

/// The parser reads back a ternary.
proof fn lemma_parse_ternary(tokens: Seq<TokenView>, pos: int, tree: Tree)
    requires
        tree is Ternary,
        printable(tree),
        stands_at(plain(tokens), pos, written(tree)),
    ensures
        reads(primary(tokens, pos), tree),
        !is_unary_operator(kind_at(tokens, pos)),
    decreases tree, 0nat,
{
    let condition = *tree->Ternary_0;
    let then_branch = *tree->Ternary_1;
    let else_branch = *tree->Ternary_2;
    let lp = seq![mark(Kind::LeftParen)];
    let qm = seq![mark(Kind::Question)];
    let cm = seq![mark(Kind::Colon)];
    let rp = seq![mark(Kind::RightParen)];
    let wa = written(condition);
    let wb = written(then_branch);
    let wc = written(else_branch);
    let p1 = pos + 1;
    let p2 = p1 + wa.len();
    let p3 = p2 + 1;
    let p4 = p3 + wb.len();
    let p5 = p4 + 1;
    let p6 = p5 + wc.len();
    assert(written(tree) =~= (lp + wa + qm + wb + cm) + wc + rp);
    lemma_three_parts_at(plain(tokens), pos, lp + wa + qm + wb + cm, wc, rp);
    assert(lp + wa + qm + wb + cm =~= (lp + wa + qm) + wb + cm);
    lemma_three_parts_at(plain(tokens), pos, lp + wa + qm, wb, cm);
    lemma_three_parts_at(plain(tokens), pos, lp, wa, qm);
    lemma_mark_at(tokens, pos, mark(Kind::LeftParen));
    lemma_mark_at(tokens, p2, mark(Kind::Question));
    lemma_mark_at(tokens, p4, mark(Kind::Colon));
    lemma_mark_at(tokens, p6, mark(Kind::RightParen));
    lemma_parse_written(tokens, p1, condition);
    lemma_parse_written(tokens, p3, then_branch);
    lemma_parse_written(tokens, p5, else_branch);
    let (a, first) = primary(tokens, p1)->Ok_0;
    let (b, second) = primary(tokens, p3)->Ok_0;
    let (c, third) = primary(tokens, p5)->Ok_0;
    assert(unary(tokens, p1) == primary(tokens, p1));
    assert(unary(tokens, p3) == primary(tokens, p3));
    assert(unary(tokens, p5) == primary(tokens, p5));
    assert(operand(tokens, p1, 0) == unary(tokens, p1));
    assert(operand(tokens, p3, 0) == unary(tokens, p3));
    assert(operand(tokens, p5, 0) == unary(tokens, p5));
    lemma_climb(tokens, p1, 0, 3, a, first);
    lemma_climb(tokens, p3, 0, 3, b, second);
    lemma_climb(tokens, p5, 0, 3, c, third);
    let whole = Tree::Ternary(Box::new(a), Box::new(b), Box::new(c));
    assert(ternary(tokens, p1) == Outcome::Ok((whole, first + 1 + second + 1 + third)));
    assert(primary(tokens, pos) == Outcome::Ok(
        (Tree::Grouping(Box::new(whole)), first + 1 + second + 1 + third + 2),
    ));
    assert(skeleton(Tree::Grouping(Box::new(whole))) == skeleton(whole));
    assert(skeleton(whole) == Tree::Ternary(
        Box::new(skeleton(a)),
        Box::new(skeleton(b)),
        Box::new(skeleton(c)),
    ));
    assert(written(tree).len() == first + 1 + second + 1 + third + 2);
}

/// Where the tokens of the infix form of a printable tree stand, the parser
/// reads as a primary expression a tree that is the same but for groupings
/// and lines.
pub proof fn lemma_parse_written(tokens: Seq<TokenView>, pos: int, tree: Tree)
    requires
        printable(tree),
        stands_at(plain(tokens), pos, written(tree)),
    ensures
        reads(primary(tokens, pos), tree),
        !is_unary_operator(kind_at(tokens, pos)),
    decreases tree, 1nat,
{
    match tree {
        Tree::Literal(_) => lemma_parse_literal(tokens, pos, tree),
        Tree::Grouping(_) => lemma_parse_grouping(tokens, pos, tree),
        Tree::Unary(_, _) => lemma_parse_unary(tokens, pos, tree),
        Tree::Binary(_, _, _) => lemma_parse_binary(tokens, pos, tree),
        Tree::Ternary(_, _, _) => lemma_parse_ternary(tokens, pos, tree),
    }
}

/// The infix form of a printable tree scans without an error, and its
/// tokens parse to a tree that is the same but for groupings and lines.
pub proof fn lemma_infix_reads_back(tree: Tree)
    requires
        printable(tree),
    ensures
        errors_from(infix(tree), 0) == Seq::<ScannerError>::empty(),
        parsed(tokens_from(infix(tree), 0)) is Ok,
        skeleton(parsed(tokens_from(infix(tree), 0))->Ok_0) == skeleton(tree),
{
    let text = infix(tree);
    let tokens = tokens_from(text, 0);
    let end = text.len() as int;
    let count = written(tree).len() as int;
    lemma_scan_written(text, 0, tree);
    assert(tokens_from(text, end) == seq![eof(text)]);
    assert(errors_from(text, end) == Seq::<ScannerError>::empty());
    assert(plain(tokens) == written(tree) + plain(seq![eof(text)]));
    assert(plain(tokens).len() == tokens.len());
    assert(stands_at(plain(tokens), 0, written(tree)));
    lemma_parse_written(tokens, 0, tree);
    let (again, taken) = primary(tokens, 0)->Ok_0;
    assert(unlined(tokens[count]) == plain(tokens)[count]);
    assert(plain(tokens)[count] == plain(seq![eof(text)])[0]);
    assert(kind_at(tokens, count) == Kind::Eof);
    assert(unary(tokens, 0) == primary(tokens, 0));
    lemma_whole_expression(tokens, 0, again, taken);
    assert(expression(tokens, 0) == Outcome::Ok((again, taken)));
}

/// A search for `c` that ends within the part of a text that a lexeme is
/// ends at the same place in the lexeme alone.
pub proof fn lemma_until_within(src: Seq<char>, pos: int, lexeme: Seq<char>, k: int, c: char)
    requires
        stands_at(src, pos, lexeme),
        0 <= k <= lexeme.len(),
        k + until(src, pos + k, c) < lexeme.len(),
    ensures
        until(lexeme, k, c) == until(src, pos + k, c),
    decreases lexeme.len() - k,
{
    if k < lexeme.len() && lexeme[k] != c {
        lemma_until_within(src, pos, lexeme, k + 1, c);
    }
}

/// A run of digits that ends within the part of a text that a lexeme is, or
/// at its end, is the same run in the lexeme alone.
pub proof fn lemma_digits_within(src: Seq<char>, pos: int, lexeme: Seq<char>, k: int)
    requires
        stands_at(src, pos, lexeme),
        0 <= k <= lexeme.len(),
        k + digits(src, pos + k) <= lexeme.len(),
    ensures
        digits(lexeme, k) == digits(src, pos + k),
    decreases lexeme.len() - k,
{
    if k < lexeme.len() && digit(lexeme[k]) {
        lemma_digits_within(src, pos, lexeme, k + 1);
    }
}

/// A run of word characters that ends within the part of a text that a
/// lexeme is, or at its end, is the same run in the lexeme alone.
pub proof fn lemma_word_chars_within(src: Seq<char>, pos: int, lexeme: Seq<char>, k: int)
    requires
        stands_at(src, pos, lexeme),
        0 <= k <= lexeme.len(),
        k + word_chars(src, pos + k) <= lexeme.len(),
    ensures
        word_chars(lexeme, k) == word_chars(src, pos + k),
    decreases lexeme.len() - k,
{
    if k < lexeme.len() && word_char(lexeme[k]) {
        lemma_word_chars_within(src, pos, lexeme, k + 1);
    }
}

/// The lexeme of a number, a string or an identifier that the scanner finds
/// in a text scans alone as the same token.
pub proof fn lemma_found_literal_scans_alone(src: Seq<char>, pos: int)
    requires
        0 <= pos < src.len(),
        piece(src, pos).kind is Some,
        is_literal(piece(src, pos).kind->0),
    ensures
        scans_alone(
            piece(src, pos).kind->0,
            src.subrange(pos, pos + piece(src, pos).len),
        ),
{
    let p = piece(src, pos);
    let n = p.len as int;
    let lexeme = src.subrange(pos, pos + n);
    let c = src[pos];
    lemma_piece_len(src, pos);
    assert(stands_at(src, pos, lexeme));
    assert(lexeme[0] == c);
    if c == '"' {
        lemma_until_bound(src, pos + 1, '"');
        lemma_until_within(src, pos, lexeme, 1, '"');
        let inner = until(src, pos + 1, '"') as int;
        assert(lexeme.subrange(1, 1 + inner) =~= src.subrange(pos + 1, pos + 1 + inner));
    } else if digit(c) {
        let whole = digits(src, pos) as int;
        lemma_digits_bound(src, pos);
        lemma_digits_bound(src, pos + whole + 1);
        lemma_digits_within(src, pos, lexeme, 0);
        if has(src, pos + whole, '.') {
            assert(lexeme[whole] == src[pos + whole]);
            lemma_digits_within(src, pos, lexeme, whole + 1);
        }
        assert(number_len(lexeme, 0) == n);
        assert(lexeme.subrange(0, n) =~= lexeme);
    } else if letter(c) || c == '_' {
        lemma_word_chars_bound(src, pos + 1);
        lemma_word_chars_within(src, pos, lexeme, 1);
        assert(lexeme.subrange(0, n) =~= lexeme);
    }
}

/// Whether every number, string and identifier among `tokens` is a token
/// that the scanner gives for its own lexeme.
pub open spec fn literals_scan_alone(tokens: Seq<TokenView>) -> bool {
    forall|i: int|
        0 <= i < tokens.len() && is_literal(#[trigger] tokens[i].kind) ==> scans_alone(
            tokens[i].kind,
            tokens[i].lexeme,
        )
}

/// Every number, string and identifier among the tokens of a text is a
/// token that the scanner gives for its own lexeme.
pub proof fn lemma_scanned_literals_scan_alone(src: Seq<char>, pos: int)
    ensures
        literals_scan_alone(tokens_from(src, pos)),
    decreases remaining(src, pos),
{
    let tokens = tokens_from(src, pos);
    if 0 <= pos < src.len() {
        let p = piece(src, pos);
        lemma_piece_len(src, pos);
        let rest = tokens_from(src, pos + p.len);
        lemma_scanned_literals_scan_alone(src, pos + p.len);
        if p.kind is Some {
            if is_literal(p.kind->0) {
                lemma_found_literal_scans_alone(src, pos);
            }
            assert forall|i: int| 0 <= i < tokens.len() && is_literal(
                #[trigger] tokens[i].kind,
            ) implies scans_alone(tokens[i].kind, tokens[i].lexeme) by {
                if i > 0 {
                    assert(tokens[i] == rest[i - 1]);
                }
            }
        } else {
            assert(tokens =~= rest);
        }
    }
}

/// A tree of the grammar whose literals are among tokens that scan alone is
/// printable.
pub proof fn lemma_grammatical_is_printable(tree: Tree, tokens: Seq<TokenView>)
    requires
        grammatical(tree, tokens),
        literals_scan_alone(tokens),
    ensures
        printable(tree),
    decreases tree,
{
    match tree {
        Tree::Binary(left, _, right) => {
            lemma_grammatical_is_printable(*left, tokens);
            lemma_grammatical_is_printable(*right, tokens);
        },
        Tree::Unary(_, operand) => {
            lemma_grammatical_is_printable(*operand, tokens);
        },
        Tree::Grouping(inner) => {
            lemma_grammatical_is_printable(*inner, tokens);
        },
        Tree::Literal(token) => {
            let i = choose|i: int| 0 <= i < tokens.len() && tokens[i] == token;
            assert(is_literal(tokens[i].kind));
        },
        Tree::Ternary(condition, then_branch, else_branch) => {
            lemma_grammatical_is_printable(*condition, tokens);
            lemma_grammatical_is_printable(*then_branch, tokens);
            lemma_grammatical_is_printable(*else_branch, tokens);
        },
    }
}

/// Reading is idempotent: where a text parses to a tree, the infix form of
/// that tree scans without an error and parses to a tree that is the same
/// but for groupings and lines.
pub proof fn lemma_parsed_reads_back(src: Seq<char>, tree: Tree)
    requires
        parsed(tokens_from(src, 0)) == Ok::<Tree, crate::parser::Failure>(tree),
    ensures
        printable(tree),
        errors_from(infix(tree), 0) == Seq::<ScannerError>::empty(),
        parsed(tokens_from(infix(tree), 0)) is Ok,
        skeleton(parsed(tokens_from(infix(tree), 0))->Ok_0) == skeleton(tree),
{
    let tokens = tokens_from(src, 0);
    lemma_tree_takes_every_token(tokens);
    lemma_scanned_literals_scan_alone(src, 0);
    lemma_grammatical_is_printable(tree, tokens);
    lemma_infix_reads_back(tree);
}

} // verus!
