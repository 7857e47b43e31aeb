use vstd::prelude::*;
use vstd::string::*;

use crate::lexis::token::TokenRule;
use crate::syntax::recovery::RecoveryResult;
use crate::syntax::rule::{NodeRule, ROOT_RULE};

verus! {

/// Lexicographic order of texts by the code points of their characters,
/// which is also the byte order of their UTF-8 encodings.
pub open spec fn text_less(a: Seq<char>, b: Seq<char>) -> bool
    decreases a.len(),
{
    if a.len() == 0 {
        b.len() > 0
    } else if b.len() == 0 {
        false
    } else if a[0] != b[0] {
        (a[0] as int) < (b[0] as int)
    } else {
        text_less(a.drop_first(), b.drop_first())
    }
}

/// No text precedes itself.
pub proof fn lemma_text_less_irreflexive(a: Seq<char>)
    ensures
        !text_less(a, a),
    decreases a.len(),
{
    if a.len() > 0 {
        lemma_text_less_irreflexive(a.drop_first());
    }
}

/// The text order is transitive.
pub proof fn lemma_text_less_transitive(a: Seq<char>, b: Seq<char>, c: Seq<char>)
    requires
        text_less(a, b),
        text_less(b, c),
    ensures
        text_less(a, c),
    decreases a.len(),
{
    if a.len() > 0 && b.len() > 0 && c.len() > 0 && a[0] == b[0] && b[0] == c[0] {
        lemma_text_less_transitive(a.drop_first(), b.drop_first(), c.drop_first());
    }
}

/// Any two different texts are ordered one way or the other.
pub proof fn lemma_text_less_total(a: Seq<char>, b: Seq<char>)
    ensures
        text_less(a, b) || text_less(b, a) || a == b,
    decreases a.len(),
{
    if a.len() == 0 && b.len() == 0 {
        assert(a =~= b);
    } else if a.len() > 0 && b.len() > 0 && a[0] == b[0] {
        lemma_text_less_total(a.drop_first(), b.drop_first());
        if a.drop_first() == b.drop_first() {
            assert(a.len() == a.drop_first().len() + 1);
            assert(b.len() == b.drop_first().len() + 1);
            assert forall|i: int| 0 <= i < a.len() implies a[i] == b[i] by {
                if i > 0 {
                    assert(a[i] == a.drop_first()[i - 1]);
                    assert(b[i] == b.drop_first()[i - 1]);
                }
            }
            assert(a =~= b);
        }
    } else if a.len() > 0 && b.len() > 0 {
        assert((a[0] as int) != (b[0] as int));
    }
}

/// Skipping a common first character keeps the order of two texts.
proof fn lemma_text_less_skip(a: Seq<char>, b: Seq<char>, i: int)
    requires
        0 <= i < a.len(),
        i < b.len(),
        a[i] == b[i],
    ensures
        text_less(a.skip(i), b.skip(i)) == text_less(a.skip(i + 1), b.skip(i + 1)),
{
    assert(a.skip(i).drop_first() =~= a.skip(i + 1));
    assert(b.skip(i).drop_first() =~= b.skip(i + 1));
}

/// Returns true if `a` precedes `b` in the lexicographic order of their
/// characters.
pub fn text_precedes(a: &str, b: &str) -> (result: bool)
    ensures
        result == text_less(a@, b@),
{
    let a_len = a.unicode_len();
    let b_len = b.unicode_len();
    let mut i: usize = 0;
    proof {
        assert(a@.skip(0) =~= a@);
        assert(b@.skip(0) =~= b@);
    }
    while i < a_len && i < b_len
        invariant
            a_len == a@.len(),
            b_len == b@.len(),
            i <= a_len,
            i <= b_len,
            text_less(a@, b@) == text_less(a@.skip(i as int), b@.skip(i as int)),
        decreases a_len - i,
    {
        let x = a.get_char(i);
        let y = b.get_char(i);
        if x != y {
            proof {
                assert(a@.skip(i as int)[0] == x);
                assert(b@.skip(i as int)[0] == y);
            }
            return x < y;
        }
        proof {
            lemma_text_less_skip(a@, b@, i as int);
        }
        i = i + 1;
    }
    i == a_len && i < b_len
}

/// Returns true if the two texts hold the same characters.
pub fn same_text(a: &str, b: &str) -> (result: bool)
    ensures
        result == (a@ == b@),
{
    let a_len = a.unicode_len();
    let b_len = b.unicode_len();
    if a_len != b_len {
        return false;
    }
    let mut i: usize = 0;
    while i < a_len
        invariant
            a_len == a@.len(),
            b_len == b@.len(),
            a_len == b_len,
            i <= a_len,
            forall|k: int| 0 <= k < i ==> a@[k] == b@[k],
        decreases a_len - i,
    {
        if a.get_char(i) != b.get_char(i) {
            return false;
        }
        i = i + 1;
    }
    assert(a@ =~= b@);
    true
}

/// The order of described rules in a message: node descriptions (`false`)
/// come before token descriptions (`true`), each kind in text order.
pub open spec fn item_less(a: (bool, Seq<char>), b: (bool, Seq<char>)) -> bool {
    (!a.0 && b.0) || (a.0 == b.0 && text_less(a.1, b.1))
}

/// The order of described rules is a strict total order.
pub proof fn lemma_item_order(a: (bool, Seq<char>), b: (bool, Seq<char>), c: (bool, Seq<char>))
    ensures
        !item_less(a, a),
        item_less(a, b) && item_less(b, c) ==> item_less(a, c),
        item_less(a, b) || item_less(b, a) || a == b,
{
    lemma_text_less_irreflexive(a.1);
    if item_less(a, b) && item_less(b, c) && a.0 == b.0 && b.0 == c.0 {
        lemma_text_less_transitive(a.1, b.1, c.1);
    }
    lemma_text_less_total(a.1, b.1);
}

/// True when every described rule of `s` precedes the ones after it.
pub open spec fn strictly_ordered(s: Seq<(bool, Seq<char>)>) -> bool {
    forall|i: int, j: int| 0 <= i < j < s.len() ==> item_less(s[i], s[j])
}

/// Two strictly ordered sequences of described rules with the same
/// elements are equal.
pub proof fn lemma_ordered_unique(a: Seq<(bool, Seq<char>)>, b: Seq<(bool, Seq<char>)>)
    requires
        strictly_ordered(a),
        strictly_ordered(b),
        a.to_set() == b.to_set(),
    ensures
        a == b,
    decreases a.len(),
{
    if a.len() == 0 {
        if b.len() > 0 {
            assert(b.to_set().contains(b[0]));
        }
        assert(a =~= b);
    } else if b.len() == 0 {
        assert(a.to_set().contains(a[0]));
    } else {
        assert(a.to_set().contains(a[0]));
        assert(b.to_set().contains(b[0]));
        let ja = choose|j: int| 0 <= j < b.len() && b[j] == a[0];
        let jb = choose|j: int| 0 <= j < a.len() && a[j] == b[0];
        lemma_item_order(a[0], b[0], a[0]);
        if ja != 0 && jb != 0 {
            assert(item_less(b[0], b[ja]));
            assert(item_less(a[0], a[jb]));
        }
        assert(a[0] == b[0]);
        let a1 = a.drop_first();
        let b1 = b.drop_first();
        assert forall|x: (bool, Seq<char>)| a1.to_set().contains(x) <==> b1.to_set().contains(x) by {
            if a1.to_set().contains(x) {
                let i = choose|i: int| 0 <= i < a1.len() && a1[i] == x;
                assert(a[i + 1] == x);
                assert(a.to_set().contains(x));
                let j = choose|j: int| 0 <= j < b.len() && b[j] == x;
                assert(item_less(a[0], a[i + 1]));
                lemma_item_order(x, x, x);
                assert(j != 0);
                assert(b1[j - 1] == x);
            }
            if b1.to_set().contains(x) {
                let i = choose|i: int| 0 <= i < b1.len() && b1[i] == x;
                assert(b[i + 1] == x);
                assert(b.to_set().contains(x));
                let j = choose|j: int| 0 <= j < a.len() && a[j] == x;
                assert(item_less(b[0], b[i + 1]));
                lemma_item_order(x, x, x);
                assert(j != 0);
                assert(a1[j - 1] == x);
            }
        }
        assert(a1.to_set() =~= b1.to_set());
        lemma_ordered_unique(a1, b1);
        assert forall|i: int| 0 <= i < a.len() implies a[i] == b[i] by {
            if i > 0 {
                assert(a[i] == a1[i - 1]);
                assert(b[i] == b1[i - 1]);
            }
        }
        assert(a =~= b);
    }
}

/// The described rules of `v` as texts.
pub open spec fn items_view<'a>(v: Seq<(bool, &'a str)>) -> Seq<(bool, Seq<char>)> {
    v.map_values(|x: (bool, &'a str)| (x.0, x.1@))
}

/// True when a described rule of either kind in `s` has the text `text`.
pub open spec fn text_present(s: Set<(bool, Seq<char>)>, text: Seq<char>) -> bool {
    s.contains((false, text)) || s.contains((true, text))
}

/// Returns true if the described rule `a` precedes `b`.
pub fn item_precedes(a: (bool, &str), b: (bool, &str)) -> (result: bool)
    ensures
        result == item_less((a.0, a.1@), (b.0, b.1@)),
{
    if a.0 != b.0 {
        !a.0
    } else {
        text_precedes(a.1, b.1)
    }
}

/// Adds a described rule to an ordered collection, unless a rule with the
/// same text is already there.
pub fn insert_described<'a>(items: &mut Vec<(bool, &'a str)>, is_token: bool, text: &'a str)
    requires
        strictly_ordered(items_view(old(items)@)),
    ensures
        strictly_ordered(items_view(final(items)@)),
        items_view(final(items)@).to_set() == if text_present(items_view(old(items)@).to_set(), text@) {
            items_view(old(items)@).to_set()
        } else {
            items_view(old(items)@).to_set().insert((is_token, text@))
        },
{
    let ghost before = items_view(items@);
    let n = items.len();
    let mut i: usize = 0;
    while i < n
        invariant
            n == items.len(),
            items_view(items@) == before,
            strictly_ordered(before),
            i <= n,
            forall|k: int| 0 <= k < i ==> (#[trigger] before[k]).1 != text@,
        decreases n - i,
    {
        if same_text(items[i].1, text) {
            proof {
                assert(before[i as int] == (items@[i as int].0, items@[i as int].1@));
                assert(before.to_set().contains(before[i as int]));
                if items@[i as int].0 {
                    assert(before[i as int] == (true, text@));
                } else {
                    assert(before[i as int] == (false, text@));
                }
            }
            return;
        }
        i = i + 1;
    }
    proof {
        if text_present(before.to_set(), text@) {
            if before.to_set().contains((false, text@)) {
                let k = choose|k: int| 0 <= k < before.len() && before[k] == (false, text@);
                assert(before[k].1 == text@);
            } else {
                let k = choose|k: int| 0 <= k < before.len() && before[k] == (true, text@);
                assert(before[k].1 == text@);
            }
        }
    }
    let ghost item = (is_token, text@);
    let mut p: usize = 0;
    while p < n && item_precedes(items[p], (is_token, text))
        invariant
            n == items.len(),
            items_view(items@) == before,
            p <= n,
            item == (is_token, text@),
            forall|k: int| 0 <= k < p ==> item_less(#[trigger] before[k], item),
        decreases n - p,
    {
        assert(before[p as int] == (items@[p as int].0, items@[p as int].1@));
        p = p + 1;
    }
    items.insert(p, (is_token, text));
    let ghost after = items_view(items@);
    proof {
        assert(after =~= before.insert(p as int, item));
        if p < n {
            assert(before[p as int].1 != text@);
            lemma_item_order(before[p as int], item, item);
            assert(item_less(item, before[p as int]));
        }
        assert forall|i: int, j: int| 0 <= i < j < after.len() implies item_less(after[i], after[j]) by {
            if j < p {
                assert(after[i] == before[i] && after[j] == before[j]);
            } else if j == p {
                assert(after[i] == before[i]);
            } else if i < p {
                assert(after[i] == before[i] && after[j] == before[j - 1]);
                lemma_item_order(before[i], item, before[p as int]);
                if p < j - 1 {
                    lemma_item_order(before[i], before[p as int], before[j - 1]);
                }
            } else if i == p {
                assert(after[j] == before[j - 1]);
                if p < j - 1 {
                    lemma_item_order(item, before[p as int], before[j - 1]);
                }
            } else {
                assert(after[i] == before[i - 1] && after[j] == before[j - 1]);
            }
        }
        assert forall|x: (bool, Seq<char>)| after.to_set().contains(x) <==> before.to_set().insert(item).contains(x) by {
            if after.to_set().contains(x) {
                let k = choose|k: int| 0 <= k < after.len() && after[k] == x;
                if k < p {
                    assert(before[k] == x);
                } else if k > p {
                    assert(before[k - 1] == x);
                }
            }
            if before.to_set().contains(x) {
                let k = choose|k: int| 0 <= k < before.len() && before[k] == x;
                if k < p {
                    assert(after[k] == x);
                } else {
                    assert(after[k + 1] == x);
                }
            }
            if x == item {
                assert(after[p as int] == x);
            }
        }
        assert(after.to_set() =~= before.to_set().insert(item));
    }
}

/// The length of a message, in characters, above which the listing of
/// expected rules is shortened.
pub const MESSAGE_LENGTH_MAX: usize = 80;

/// The words a message starts with.
pub open spec fn lead_text(alt: bool, empty_span: bool, recovery: RecoveryResult) -> Seq<char> {
    if recovery == RecoveryResult::PanicRecover && !empty_span {
        if alt {
            "Unexpected input"@
        } else {
            "unexpected input"@
        }
    } else if recovery == RecoveryResult::UnexpectedEOI {
        if alt {
            "Unexpected end of input"@
        } else {
            "unexpected end of input"@
        }
    } else if alt {
        "Missing"@
    } else {
        "missing"@
    }
}

/// True when the message lists the expected rules: for the recoveries that
/// report something missing.
pub open spec fn lists_expected(empty_span: bool, recovery: RecoveryResult) -> bool {
    if recovery == RecoveryResult::PanicRecover {
        empty_span
    } else {
        recovery != RecoveryResult::UnexpectedEOI
    }
}

/// A described rule as it appears in a message: token descriptions quoted.
pub open spec fn item_text(item: (bool, Seq<char>)) -> Seq<char> {
    if item.0 {
        "'"@ + item.1 + "'"@
    } else {
        item.1
    }
}

/// The separator between listed rules: "or" between exactly two of a
/// complete listing, a comma otherwise.
pub open spec fn separator(count: int, exhaustive: bool) -> Seq<char> {
    if count == 2 && exhaustive {
        " or "@
    } else {
        ", "@
    }
}

/// The listing of described rules, each preceded by a space or a separator.
pub open spec fn listing(items: Seq<(bool, Seq<char>)>, separator: Seq<char>) -> Seq<char>
    decreases items.len(),
{
    if items.len() == 0 {
        Seq::empty()
    } else {
        listing(items.drop_last(), separator) + (if items.len() == 1 {
            " "@
        } else {
            separator
        }) + item_text(items.last())
    }
}

/// The end of a message: an ellipsis after a shortened listing, otherwise
/// the context it occurred in and, in the alternate form, a full stop.
pub open spec fn ending(alt: bool, context: Seq<char>, exhaustive: bool) -> Seq<char> {
    if !exhaustive {
        if alt {
            "..."@
        } else {
            "\u{2026}"@
        }
    } else {
        (if context.len() > 0 {
            " in "@ + context
        } else {
            Seq::empty()
        }) + (if alt {
            "."@
        } else {
            Seq::empty()
        })
    }
}

/// The message for a listing of described rules.
pub open spec fn message_text(
    alt: bool,
    empty_span: bool,
    context: Seq<char>,
    recovery: RecoveryResult,
    items: Seq<(bool, Seq<char>)>,
    exhaustive: bool,
) -> Seq<char> {
    lead_text(alt, empty_span, recovery) + (if lists_expected(empty_span, recovery) {
        listing(items, separator(items.len() as int, exhaustive))
    } else {
        Seq::empty()
    }) + ending(alt, context, exhaustive)
}

/// The message, with the listing cut from its end while the message is
/// longer than [MESSAGE_LENGTH_MAX] and more than two rules are listed;
/// never in the alternate form.
pub open spec fn shortened_message(
    alt: bool,
    empty_span: bool,
    context: Seq<char>,
    recovery: RecoveryResult,
    items: Seq<(bool, Seq<char>)>,
    exhaustive: bool,
) -> Seq<char>
    decreases items.len(),
{
    let text = message_text(alt, empty_span, context, recovery, items, exhaustive);
    if text.len() > MESSAGE_LENGTH_MAX && !alt && items.len() > 2 {
        shortened_message(alt, empty_span, context, recovery, items.drop_last(), false)
    } else {
        text
    }
}

/// Renders the message for the first `count` described rules.
fn render_message(
    alt: bool,
    empty_span: bool,
    context: &str,
    recovery: RecoveryResult,
    items: &Vec<(bool, &str)>,
    count: usize,
    exhaustive: bool,
) -> (result: String)
    requires
        count <= items.len(),
    ensures
        result@ == message_text(
            alt,
            empty_span,
            context@,
            recovery,
            items_view(items@).take(count as int),
            exhaustive,
        ),
{
    let ghost listed = items_view(items@).take(count as int);
    let ghost sep = separator(count as int, exhaustive);
    let mut result = String::new();
    let lists = match recovery {
        RecoveryResult::PanicRecover => empty_span,
        RecoveryResult::UnexpectedEOI => false,
        _ => true,
    };
    if recovery == RecoveryResult::PanicRecover && !empty_span {
        if alt {
            result.append("Unexpected input");
        } else {
            result.append("unexpected input");
        }
    } else if recovery == RecoveryResult::UnexpectedEOI {
        if alt {
            result.append("Unexpected end of input");
        } else {
            result.append("unexpected end of input");
        }
    } else if alt {
        result.append("Missing");
    } else {
        result.append("missing");
    }
    let ghost lead = result@;
    assert(lead =~= lead_text(alt, empty_span, recovery));
    if lists {
        let mut i: usize = 0;
        while i < count
            invariant
                count <= items.len(),
                i <= count,
                listed == items_view(items@).take(count as int),
                sep == separator(count as int, exhaustive),
                result@ == lead + listing(listed.take(i as int), sep),
            decreases count - i,
        {
            let ghost prefix = result@;
            if i == 0 {
                result.append(" ");
            } else if count == 2 && exhaustive {
                result.append(" or ");
            } else {
                result.append(", ");
            }
            let item = items[i];
            if item.0 {
                result.append("'");
                result.append(item.1);
                result.append("'");
            } else {
                result.append(item.1);
            }
            proof {
                let next = listed.take(i + 1);
                assert(next.drop_last() =~= listed.take(i as int));
                assert(next.last() == (item.0, item.1@));
                assert(result@ =~= lead + listing(next, sep));
            }
            i = i + 1;
        }
        assert(listed.take(count as int) =~= listed);
    }
    let ghost middle = result@;
    if !exhaustive {
        if alt {
            result.append("...");
        } else {
            result.append("\u{2026}");
        }
    } else {
        if context.unicode_len() > 0 {
            result.append(" in ");
            result.append(context);
        }
        if alt {
            result.append(".");
        }
    }
    assert(result@ =~= middle + ending(alt, context@, exhaustive));
    result
}

/// Renders the message for the described rules, shortening the listing as
/// [shortened_message] says.
pub fn compose_message(
    alt: bool,
    empty_span: bool,
    context: &str,
    recovery: RecoveryResult,
    items: &Vec<(bool, &str)>,
) -> (result: String)
    ensures
        result@ == shortened_message(alt, empty_span, context@, recovery, items_view(items@), true),
{
    let ghost full = items_view(items@);
    let mut count = items.len();
    let mut exhaustive = true;
    assert(full.take(count as int) =~= full);
    let mut text = render_message(alt, empty_span, context, recovery, items, count, exhaustive);
    loop
        invariant
            count <= items.len(),
            full == items_view(items@),
            text@ == message_text(alt, empty_span, context@, recovery, full.take(count as int), exhaustive),
            shortened_message(alt, empty_span, context@, recovery, full, true) == shortened_message(
                alt,
                empty_span,
                context@,
                recovery,
                full.take(count as int),
                exhaustive,
            ),
        ensures
            text@ == shortened_message(alt, empty_span, context@, recovery, full, true),
        decreases count,
    {
        if text.as_str().unicode_len() <= MESSAGE_LENGTH_MAX {
            break;
        }
        if alt || count <= 2 {
            break;
        }
        proof {
            assert(full.take(count as int).drop_last() =~= full.take(count - 1));
        }
        count = count - 1;
        exhaustive = false;
        text = render_message(alt, empty_span, context, recovery, items, count, exhaustive);
    }
    text
}

/// The description of `rule` in a table of descriptions indexed by rule;
/// rules past the end of the table have none.
pub open spec fn table_entry<'a>(table: Seq<Option<&'a str>>, rule: int) -> Option<Seq<char>> {
    if 0 <= rule < table.len() {
        match table[rule] {
            Some(text) => Some(text@),
            None => None,
        }
    } else {
        None
    }
}

/// Returns the description of `rule` in a table indexed by rule.
pub fn table_lookup<'a>(table: &[Option<&'a str>], rule: usize) -> (result: Option<&'a str>)
    ensures
        result == (if rule < table@.len() {
            table@[rule as int]
        } else {
            None
        }),
        table_entry(table@, rule as int) == match result {
            Some(text) => Some(text@),
            None => None,
        },
{
    if rule < table.len() {
        table[rule]
    } else {
        None
    }
}

/// True when some node rule of `nodes` has the description `text`.
pub open spec fn node_described<'a>(nodes: Set<NodeRule>, table: Seq<Option<&'a str>>, text: Seq<char>) -> bool {
    exists|rule: NodeRule| nodes.contains(rule) && table_entry(table, rule as int) == Some(text)
}

/// True when some token rule of `tokens` has the description `text`.
pub open spec fn token_described<'a>(tokens: Set<TokenRule>, table: Seq<Option<&'a str>>, text: Seq<char>) -> bool {
    exists|rule: TokenRule| tokens.contains(rule) && table_entry(table, rule as int) == Some(text)
}

/// The described rules a message lists: the descriptions of the expected
/// nodes, and those of the expected tokens that no expected node shares.
pub open spec fn described_items<'a>(
    nodes: Set<NodeRule>,
    node_table: Seq<Option<&'a str>>,
    tokens: Set<TokenRule>,
    token_table: Seq<Option<&'a str>>,
) -> Set<(bool, Seq<char>)> {
    Set::new(
        |item: (bool, Seq<char>)|
            if item.0 {
                token_described(tokens, token_table, item.1) && !node_described(nodes, node_table, item.1)
            } else {
                node_described(nodes, node_table, item.1)
            },
    )
}

/// The described rules of `set` in message order.
pub open spec fn ordered_items(set: Set<(bool, Seq<char>)>) -> Seq<(bool, Seq<char>)> {
    choose|s: Seq<(bool, Seq<char>)>| strictly_ordered(s) && s.to_set() == set
}

/// An ordered sequence of the described rules of a set is the one
/// [ordered_items] names.
pub proof fn lemma_ordered_items(s: Seq<(bool, Seq<char>)>, set: Set<(bool, Seq<char>)>)
    requires
        strictly_ordered(s),
        s.to_set() == set,
    ensures
        ordered_items(set) == s,
{
    let chosen = ordered_items(set);
    assert(strictly_ordered(chosen) && chosen.to_set() == set);
    lemma_ordered_unique(chosen, s);
}

/// The context a message names: the description of the reporting rule,
/// unless that is the root rule.
pub open spec fn context_text<'a>(context: NodeRule, description: Option<&'a str>) -> Seq<char> {
    match description {
        Some(text) => if context != ROOT_RULE {
            text@
        } else {
            Seq::empty()
        },
        None => Seq::empty(),
    }
}

/// The texts of `v`.
pub open spec fn texts_view<'a>(v: Seq<&'a str>) -> Seq<Seq<char>> {
    v.map_values(|x: &'a str| x@)
}

/// True when no text of `s` precedes a text before it.
pub open spec fn texts_sorted(s: Seq<Seq<char>>) -> bool {
    forall|i: int, j: int| 0 <= i < j < s.len() ==> !text_less(#[trigger] s[j], #[trigger] s[i])
}

/// Inserts `text` into sorted texts, after the texts it does not precede.
pub fn insert_text_sorted<'a>(texts: &mut Vec<&'a str>, text: &'a str)
    requires
        texts_sorted(texts_view(old(texts)@)),
    ensures
        texts_sorted(texts_view(final(texts)@)),
        texts_view(final(texts)@).to_multiset() == texts_view(old(texts)@).to_multiset().insert(text@),
{
    let ghost before = texts_view(texts@);
    let n = texts.len();
    let mut p: usize = 0;
    while p < n && !text_precedes(text, texts[p])
        invariant
            n == texts.len(),
            texts_view(texts@) == before,
            p <= n,
            forall|k: int| 0 <= k < p ==> !text_less(text@, #[trigger] before[k]),
        decreases n - p,
    {
        assert(before[p as int] == texts@[p as int]@);
        p = p + 1;
    }
    texts.insert(p, text);
    let ghost after = texts_view(texts@);
    proof {
        assert(after =~= before.insert(p as int, text@));
        if p < n {
            assert(before[p as int] == texts@[p as int + 1]@);
            assert(text_less(text@, before[p as int]));
        }
        assert forall|i: int, j: int| 0 <= i < j < after.len() implies !text_less(#[trigger] after[j], #[trigger] after[i]) by {
            if j < p {
                assert(after[i] == before[i] && after[j] == before[j]);
            } else if j == p {
                assert(after[i] == before[i]);
            } else if i < p {
                assert(after[i] == before[i] && after[j] == before[j - 1]);
            } else if i == p {
                assert(after[j] == before[j - 1]);
                if text_less(before[j - 1], text@) {
                    lemma_text_less_transitive(before[j - 1], text@, before[p as int]);
                    lemma_text_less_irreflexive(before[p as int]);
                }
            } else {
                assert(after[i] == before[i - 1] && after[j] == before[j - 1]);
            }
        }
        assert(after.remove(p as int) =~= before);
        after.to_multiset_ensures();
        assert(after[p as int] == text@);
        assert(after.contains(text@));
        assert(after.to_multiset() =~= before.to_multiset().insert(text@));
    }
}

/// The descriptions of `rules` that a table holds, in the order of `rules`.
pub open spec fn named<'a>(rules: Seq<u16>, table: Seq<Option<&'a str>>) -> Seq<Seq<char>>
    decreases rules.len(),
{
    if rules.len() == 0 {
        Seq::empty()
    } else {
        let rest = named(rules.drop_last(), table);
        match table_entry(table, rules.last() as int) {
            Some(text) => rest.push(text),
            None => rest,
        }
    }
}

/// Sorts the descriptions that a table holds for `rules`.
pub fn sorted_names<'a>(rules: &[u16], table: &[Option<&'a str>]) -> (result: Vec<&'a str>)
    ensures
        texts_sorted(texts_view(result@)),
        texts_view(result@).to_multiset() == named(rules@, table@).to_multiset(),
{
    let mut result: Vec<&'a str> = Vec::new();
    let mut i: usize = 0;
    assert(rules@.take(0) =~= Seq::<u16>::empty());
    assert(texts_view(result@) =~= named(rules@.take(0), table@));
    while i < rules.len()
        invariant
            i <= rules@.len(),
            texts_sorted(texts_view(result@)),
            texts_view(result@).to_multiset() == named(rules@.take(i as int), table@).to_multiset(),
        decreases rules.len() - i,
    {
        let ghost rest = named(rules@.take(i as int), table@);
        assert(rules@.take(i + 1).drop_last() =~= rules@.take(i as int));
        assert(rules@.take(i + 1).last() == rules@[i as int]);
        match table_lookup(table, rules[i] as usize) {
            Some(text) => {
                insert_text_sorted(&mut result, text);
                proof {
                    rest.to_multiset_ensures();
                }
            },
            None => {},
        }
        i = i + 1;
    }
    assert(rules@.take(rules@.len() as int) =~= rules@);
    result
}

} // verus!
