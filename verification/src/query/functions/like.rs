//! Text patterns of `LIKE`.
//!
//! `%` stands for any text. `_` stands for a dot. Nothing else is special, save that a
//! dot followed by a star stands for any text too.

use crate::text::chars_of;
use vstd::prelude::*;

verus! {

/// Whether `needle` stands in `s` at `p`.
pub open spec fn stands_at(s: Seq<char>, needle: Seq<char>, p: int) -> bool {
    0 <= p && p + needle.len() <= s.len() && s.subrange(p, p + needle.len()) == needle
}

/// The first place from `p` on where `needle` stands in `s`.
pub open spec fn find_from(s: Seq<char>, needle: Seq<char>, p: nat) -> Option<nat>
    decreases s.len() + 1 - p,
{
    if p + needle.len() > s.len() {
        None
    } else if stands_at(s, needle, p as int) {
        Some(p)
    } else {
        find_from(s, needle, p + 1)
    }
}

/// The first place where `needle` stands in `s`.
pub open spec fn find(s: Seq<char>, needle: Seq<char>) -> Option<nat> {
    find_from(s, needle, 0)
}

/// The mark that stands for any text.
pub open spec fn any_mark() -> Seq<char> {
    seq!['.', '*']
}

/// A pattern with `%` written as the mark for any text and `_` as a dot.
pub open spec fn marked(pattern: Seq<char>) -> Seq<char>
    decreases pattern.len(),
{
    if pattern.len() == 0 {
        Seq::empty()
    } else {
        let front = marked(pattern.drop_last());
        if pattern.last() == '%' {
            front + any_mark()
        } else if pattern.last() == '_' {
            front.push('.')
        } else {
            front.push(pattern.last())
        }
    }
}

/// A place that is found lies inside the text.
pub proof fn found_place_is_inside(s: Seq<char>, needle: Seq<char>, p: nat)
    ensures
        find_from(s, needle, p) matches Some(q) ==> p <= q && q + needle.len() <= s.len()
            && stands_at(s, needle, q as int),
        find_from(s, needle, p) is None ==> forall|q: int|
            p <= q ==> !#[trigger] stands_at(s, needle, q),
    decreases s.len() + 1 - p,
{
    if p + needle.len() <= s.len() && !stands_at(s, needle, p as int) {
        found_place_is_inside(s, needle, p + 1);
    }
}

/// The parts of a marked pattern between its marks for any text.
pub open spec fn parts_of(pattern: Seq<char>) -> Seq<Seq<char>>
    decreases pattern.len(),
{
    proof {
        found_place_is_inside(pattern, any_mark(), 0);
    }
    match find(pattern, any_mark()) {
        None => seq![pattern],
        Some(p) => seq![pattern.take(p as int)] + parts_of(pattern.skip(p as int + 2)),
    }
}

/// What is left of `rest` behind the parts, which are looked for one behind the other;
/// `None` if one is not found. The first part has to stand at the start, if `first`.
pub open spec fn behind_parts(rest: Seq<char>, parts: Seq<Seq<char>>, first: bool) -> Option<
    Seq<char>,
>
    decreases parts.len(),
{
    if parts.len() == 0 {
        Some(rest)
    } else if parts[0].len() == 0 {
        behind_parts(rest, parts.skip(1), false)
    } else {
        match find(rest, parts[0]) {
            None => None,
            Some(q) => if first && q != 0 {
                None
            } else {
                behind_parts(rest.skip((q + parts[0].len()) as int), parts.skip(1), false)
            },
        }
    }
}

/// Whether a text matches a marked pattern. Without a mark it has to be the pattern.
/// Otherwise the parts have to follow each other in it, each taken where it stands first,
/// and nothing may be left behind the last one but where the pattern ends with a mark.
pub open spec fn marked_match(s: Seq<char>, pattern: Seq<char>) -> bool {
    let parts = parts_of(pattern);
    if parts.len() == 1 {
        s == pattern
    } else {
        match behind_parts(s, parts, true) {
            None => false,
            Some(rest) => parts.last().len() == 0 || rest.len() == 0,
        }
    }
}

/// Whether a text matches a pattern.
pub open spec fn like(s: Seq<char>, pattern: Seq<char>) -> bool {
    marked_match(s, marked(pattern))
}

fn mark_pattern(pattern: &str) -> (out: Vec<char>)
    ensures
        out@ == marked(pattern@),
{
    let chars = chars_of(pattern);
    let mut out: Vec<char> = Vec::new();
    assert(chars@.take(0) =~= Seq::empty());
    for i in 0..chars.len()
        invariant
            chars@ == pattern@,
            out@ == marked(chars@.take(i as int)),
    {
        assert(chars@.take(i + 1).drop_last() =~= chars@.take(i as int));
        let ghost before = out@;
        if chars[i] == '%' {
            out.push('.');
            out.push('*');
            assert(out@ =~= before + any_mark());
        } else if chars[i] == '_' {
            out.push('.');
        } else {
            out.push(chars[i]);
        }
    }
    assert(chars@.take(chars@.len() as int) =~= chars@);
    out
}

/// The first place from `from` on where `needle` stands in `s`.
fn find_place(s: &Vec<char>, needle: &Vec<char>, from: usize) -> (out: Option<usize>)
    requires
        from <= s@.len(),
    ensures
        match out {
            Some(q) => find(s@.skip(from as int), needle@) == Some((q - from) as nat) && from <= q
                && q + needle@.len() <= s@.len(),
            None => find(s@.skip(from as int), needle@) is None,
        },
{
    let ghost t = s@.skip(from as int);
    let n: usize = s.len();
    let m: usize = needle.len();
    let mut p: usize = from;
    loop
        invariant
            t == s@.skip(from as int),
            n == s@.len(),
            m == needle@.len(),
            from <= p <= n,
            find(t, needle@) == find_from(t, needle@, (p - from) as nat),
        decreases n + 1 - p,
    {
        if n - p < m {
            return None;
        }
        let mut k: usize = 0;
        while k < m && s[p + k] == needle[k]
            invariant
                t == s@.skip(from as int),
                n == s@.len(),
                m == needle@.len(),
                from <= p <= n,
                m <= n - p,
                k <= m,
                forall|i: int| 0 <= i < k ==> s@[p + i] == #[trigger] needle@[i],
            decreases m - k,
        {
            k = k + 1;
        }
        let ghost here = t.subrange((p - from) as int, (p - from) as int + needle@.len());
        if k == m {
            assert(here =~= needle@);
            return Some(p);
        }
        assert(here[k as int] == s@[p + k]);
        if p == n {
            return None;
        }
        p = p + 1;
    }
}

fn sub_chars(s: &Vec<char>, from: usize, to: usize) -> (out: Vec<char>)
    requires
        from <= to <= s@.len(),
    ensures
        out@ == s@.subrange(from as int, to as int),
{
    let mut out: Vec<char> = Vec::new();
    for i in from..to
        invariant
            from <= to <= s@.len(),
            out@ == s@.subrange(from as int, i as int),
    {
        out.push(s[i]);
        assert(out@ =~= s@.subrange(from as int, i + 1));
    }
    out
}

/// The characters of each part.
pub open spec fn char_views(v: Seq<Vec<char>>) -> Seq<Seq<char>> {
    v.map_values(|p: Vec<char>| p@)
}

fn split_parts(pattern: &Vec<char>) -> (out: Vec<Vec<char>>)
    ensures
        char_views(out@) == parts_of(pattern@),
{
    let mut mark: Vec<char> = Vec::new();
    mark.push('.');
    mark.push('*');
    assert(mark@ =~= any_mark());
    let n: usize = pattern.len();
    let mut out: Vec<Vec<char>> = Vec::new();
    let mut from: usize = 0;
    assert(pattern@.skip(0) =~= pattern@);
    assert(char_views(out@) + parts_of(pattern@) =~= parts_of(pattern@));
    loop
        invariant
            mark@ == any_mark(),
            n == pattern@.len(),
            from <= n,
            parts_of(pattern@) == char_views(out@) + parts_of(pattern@.skip(from as int)),
        decreases n - from,
    {
        let ghost rest = pattern@.skip(from as int);
        let ghost before = char_views(out@);
        match find_place(pattern, &mark, from) {
            None => {
                let last = sub_chars(pattern, from, n);
                assert(last@ =~= rest);
                out.push(last);
                assert(char_views(out@) =~= before + seq![rest]);
                return out;
            },
            Some(q) => {
                let part = sub_chars(pattern, from, q);
                assert(part@ =~= rest.take((q - from) as int));
                assert(rest.skip((q - from) + 2) =~= pattern@.skip(q + 2));
                let ghost head = part@;
                out.push(part);
                assert(char_views(out@) =~= before.push(head));
                assert(before + (seq![head] + parts_of(pattern@.skip(q + 2))) =~= before.push(head)
                    + parts_of(pattern@.skip(q + 2)));
                from = q + 2;
            },
        }
    }
}

/// Whether a text matches a marked pattern, given with its parts.
fn match_parts(s: &Vec<char>, pattern: &Vec<char>, parts: &Vec<Vec<char>>) -> (yes: bool)
    requires
        char_views(parts@) == parts_of(pattern@),
    ensures
        yes == marked_match(s@, pattern@),
{
    let ghost all = char_views(parts@);
    let n: usize = parts.len();
    assert(all.len() == n);
    assert(n > 0);
    if n == 1 {
        if s.len() != pattern.len() {
            return false;
        }
        for i in 0..s.len()
            invariant
                s@.len() == pattern@.len(),
                all == parts_of(pattern@),
                all.len() == 1,
                forall|k: int| 0 <= k < i ==> #[trigger] s@[k] == pattern@[k],
        {
            if s[i] != pattern[i] {
                return false;
            }
        }
        assert(s@ =~= pattern@);
        return true;
    }
    let mut from: usize = 0;
    assert(s@.skip(0) =~= s@);
    assert(all.skip(0) =~= all);
    for i in 0..n
        invariant
            n == parts@.len(),
            n != 1,
            all == char_views(parts@),
            all == parts_of(pattern@),
            from <= s@.len(),
            behind_parts(s@, all, true) == behind_parts(
                s@.skip(from as int),
                all.skip(i as int),
                i == 0,
            ),
    {
        assert(all.skip(i as int)[0] == parts@[i as int]@);
        assert(all.skip(i as int).skip(1) =~= all.skip(i + 1));
        if parts[i].len() > 0 {
            match find_place(s, &parts[i], from) {
                None => {
                    return false;
                },
                Some(q) => {
                    if i == 0 && q != from {
                        return false;
                    }
                    assert(q + parts@[i as int]@.len() <= s.len());
                    let to: usize = q + parts[i].len();
                    assert(s@.skip(from as int).skip(to - from) =~= s@.skip(to as int));
                    from = to;
                },
            }
        }
    }
    assert(behind_parts(s@.skip(from as int), all.skip(n as int), false) == Some(
        s@.skip(from as int),
    ));
    assert(all.last() == parts@[n - 1]@);
    parts[n - 1].len() == 0 || from == s.len()
}

/// Matches texts against a pattern.
pub struct Matcher {
    pattern: Vec<char>,
    parts: Vec<Vec<char>>,
}

impl Matcher {
    /// The marked pattern.
    pub closed spec fn marks(&self) -> Seq<char> {
        self.pattern@
    }

    /// Whether the parts are those of the pattern.
    pub closed spec fn wf(&self) -> bool {
        char_views(self.parts@) == parts_of(self.pattern@)
    }

    /// A matcher for a pattern.
    pub fn new(pattern: &str) -> (m: Matcher)
        ensures
            m.wf(),
            m.marks() == marked(pattern@),
    {
        let pattern = mark_pattern(pattern);
        let parts = split_parts(&pattern);
        Matcher { pattern, parts }
    }

    /// Whether a text matches.
    pub fn matches(&self, s: &str) -> (yes: bool)
        requires
            self.wf(),
        ensures
            yes == marked_match(s@, self.marks()),
    {
        let chars = chars_of(s);
        match_parts(&chars, &self.pattern, &self.parts)
    }
}

// ── Laws ────────────────────────────────────────────────────────────────────

/// Whether a character has no meaning of its own in a pattern.
pub open spec fn is_plain(c: char) -> bool {
    c != '%' && c != '_' && c != '*'
}

proof fn lemma_plain_is_kept(pattern: Seq<char>)
    requires
        forall|i: int| 0 <= i < pattern.len() ==> is_plain(#[trigger] pattern[i]),
    ensures
        marked(pattern) == pattern,
    decreases pattern.len(),
{
    if pattern.len() > 0 {
        let front = pattern.drop_last();
        assert forall|i: int| 0 <= i < front.len() implies is_plain(#[trigger] front[i]) by {
            assert(front[i] == pattern[i]);
        }
        lemma_plain_is_kept(front);
        assert(is_plain(pattern[pattern.len() - 1]));
        assert(front.push(pattern.last()) =~= pattern);
    }
}

/// A pattern of plain characters matches itself and nothing else.
pub proof fn plain_pattern_matches_itself(s: Seq<char>, pattern: Seq<char>)
    requires
        forall|i: int| 0 <= i < pattern.len() ==> is_plain(#[trigger] pattern[i]),
    ensures
        like(s, pattern) <==> s == pattern,
{
    lemma_plain_is_kept(pattern);
    found_place_is_inside(pattern, any_mark(), 0);
    if find(pattern, any_mark()) is Some {
        let q = find(pattern, any_mark())->Some_0;
        assert(pattern.subrange(q as int, q as int + 2)[1] == '*');
        assert(is_plain(pattern[q as int + 1]));
    }
}

/// The pattern `%` matches every text.
pub proof fn percent_matches_everything(s: Seq<char>)
    ensures
        like(s, seq!['%']),
{
    let p = seq!['%'];
    assert(p.drop_last() =~= Seq::empty());
    reveal_with_fuel(marked, 2);
    assert(marked(p) =~= any_mark());
    assert(any_mark().subrange(0, 2) =~= any_mark());
    assert(stands_at(any_mark(), any_mark(), 0));
    assert(find(any_mark(), any_mark()) == Some(0nat));
    let rest = any_mark().skip(2);
    assert(rest =~= Seq::empty());
    assert(find(rest, any_mark()) is None);
    assert(parts_of(rest) == seq![rest]);
    let parts = parts_of(any_mark());
    assert(parts =~= seq![any_mark().take(0), rest]);
    assert(parts.skip(1).skip(1) =~= Seq::empty());
    reveal_with_fuel(behind_parts, 3);
}

/// Parts with texts between them.
pub open spec fn joined_by(parts: Seq<Seq<char>>, gaps: Seq<Seq<char>>) -> Seq<char>
    decreases parts.len(),
{
    if parts.len() == 0 {
        Seq::empty()
    } else if parts.len() == 1 {
        parts[0]
    } else {
        parts[0] + gaps[0] + joined_by(parts.skip(1), gaps.skip(1))
    }
}

/// Parts with a text in front of each.
spec fn led_by(parts: Seq<Seq<char>>, gaps: Seq<Seq<char>>) -> Seq<char>
    decreases parts.len(),
{
    if parts.len() == 0 {
        Seq::empty()
    } else {
        gaps[0] + parts[0] + led_by(parts.skip(1), gaps.skip(1))
    }
}

proof fn lemma_led_is_joined(parts: Seq<Seq<char>>, gaps: Seq<Seq<char>>)
    requires
        parts.len() > 0,
        gaps.len() == parts.len(),
    ensures
        led_by(parts, gaps) == gaps[0] + joined_by(parts, gaps.skip(1)),
    decreases parts.len(),
{
    let rest = parts.skip(1);
    let later = gaps.skip(1);
    if parts.len() == 1 {
        assert(led_by(rest, later) =~= Seq::empty());
        assert(led_by(parts, gaps) =~= gaps[0] + parts[0]);
    } else {
        lemma_led_is_joined(rest, later);
        assert(led_by(parts, gaps) =~= gaps[0] + (parts[0] + later[0] + joined_by(
            rest,
            later.skip(1),
        )));
    }
}

proof fn lemma_first_place(s: Seq<char>, needle: Seq<char>, p: nat, r: int)
    requires
        find_from(s, needle, p) matches Some(q) && p <= r < q,
    ensures
        !stands_at(s, needle, r),
    decreases s.len() + 1 - p,
{
    if r > p {
        lemma_first_place(s, needle, p + 1, r);
    }
}

/// The texts in front of the parts, where each is taken at its first place.
spec fn gaps_before(rest: Seq<char>, parts: Seq<Seq<char>>) -> Seq<Seq<char>>
    decreases parts.len(),
{
    if parts.len() == 0 {
        Seq::empty()
    } else if parts[0].len() == 0 {
        seq![Seq::<char>::empty()] + gaps_before(rest, parts.skip(1))
    } else {
        match find(rest, parts[0]) {
            None => Seq::empty(),
            Some(q) => seq![rest.take(q as int)] + gaps_before(
                rest.skip((q + parts[0].len()) as int),
                parts.skip(1),
            ),
        }
    }
}

proof fn lemma_parts_follow(rest: Seq<char>, parts: Seq<Seq<char>>, first: bool)
    requires
        behind_parts(rest, parts, first) is Some,
    ensures
        ({
            let gaps = gaps_before(rest, parts);
            let left = behind_parts(rest, parts, first)->Some_0;
            &&& gaps.len() == parts.len()
            &&& rest == led_by(parts, gaps) + left
            &&& first && parts.len() > 0 ==> gaps[0].len() == 0
        }),
    decreases parts.len(),
{
    let gaps = gaps_before(rest, parts);
    let left = behind_parts(rest, parts, first)->Some_0;
    if parts.len() == 0 {
        assert(rest =~= led_by(parts, gaps) + left);
    } else if parts[0].len() == 0 {
        lemma_parts_follow(rest, parts.skip(1), false);
        assert(gaps.skip(1) =~= gaps_before(rest, parts.skip(1)));
        assert(gaps[0] + parts[0] =~= Seq::empty());
        assert(led_by(parts, gaps) =~= led_by(parts.skip(1), gaps.skip(1)));
    } else {
        found_place_is_inside(rest, parts[0], 0);
        let q = find(rest, parts[0])->Some_0;
        let later = rest.skip((q + parts[0].len()) as int);
        lemma_parts_follow(later, parts.skip(1), false);
        assert(gaps.skip(1) =~= gaps_before(later, parts.skip(1)));
        let found = rest.subrange(q as int, (q + parts[0].len()) as int);
        assert(found == parts[0]);
        assert(rest =~= rest.take(q as int) + found + later);
        assert(rest =~= led_by(parts, gaps) + left);
    }
}

proof fn lemma_parts_found(rest: Seq<char>, parts: Seq<Seq<char>>, gaps: Seq<Seq<char>>, left: Seq<char>)
    requires
        gaps.len() == parts.len(),
        rest == led_by(parts, gaps) + left,
    ensures
        behind_parts(rest, parts, false) is Some,
    decreases parts.len(),
{
    if parts.len() > 0 {
        let part = parts[0];
        let tail = parts.skip(1);
        let later = gaps.skip(1);
        let q: int = if part.len() == 0 {
            0
        } else {
            let at = gaps[0].len() as int;
            assert(rest.subrange(at, at + part.len()) =~= part);
            assert(stands_at(rest, part, at));
            found_place_is_inside(rest, part, 0);
            let q = find(rest, part)->Some_0;
            if q > at {
                lemma_first_place(rest, part, 0, at);
            }
            q as int
        };
        let head = gaps[0] + part;
        let extra = head.skip(q + part.len());
        let next = rest.skip(q + part.len());
        assert(rest =~= head + (led_by(tail, later) + left));
        assert(next =~= extra + (led_by(tail, later) + left));
        if part.len() == 0 {
            assert(next =~= rest);
        } else {
            assert(find(rest, part) == Some(q as nat));
        }
        assert(behind_parts(rest, parts, false) == behind_parts(next, tail, false));
        if tail.len() > 0 {
            let wider = seq![extra + later[0]] + later.skip(1);
            assert(wider.skip(1) =~= later.skip(1));
            assert(led_by(tail, wider) =~= extra + led_by(tail, later));
            assert(next =~= led_by(tail, wider) + left);
            lemma_parts_found(next, tail, wider, left);
        }
    }
}

proof fn lemma_mark_splits(x: Seq<char>)
    ensures
        parts_of(x + any_mark()).last().len() == 0,
        parts_of(x + any_mark()).len() > 1,
    decreases x.len(),
{
    let p = x + any_mark();
    let n = x.len() as int;
    assert(p.subrange(n, n + 2) =~= any_mark());
    assert(stands_at(p, any_mark(), n));
    found_place_is_inside(p, any_mark(), 0);
    let q = find(p, any_mark())->Some_0 as int;
    if q > n {
        lemma_first_place(p, any_mark(), 0, n);
    }
    let rest = p.skip(q + 2);
    lemma_parts_not_empty(rest);
    if q == n {
        assert(rest =~= Seq::empty());
        assert(find(rest, any_mark()) is None);
        assert(parts_of(rest) == seq![rest]);
    } else {
        assert(q + 1 != n) by {
            if q + 1 == n {
                assert(p.subrange(q, q + 2)[1] == '*');
                assert(p[n] == '.');
            }
        }
        assert(rest =~= x.skip(q + 2) + any_mark());
        lemma_mark_splits(x.skip(q + 2));
    }
    assert(parts_of(p).last() == parts_of(rest).last());
}

proof fn lemma_parts_not_empty(p: Seq<char>)
    ensures
        parts_of(p).len() > 0,
{
    found_place_is_inside(p, any_mark(), 0);
}

proof fn lemma_marked_concat(a: Seq<char>, b: Seq<char>)
    ensures
        marked(a + b) == marked(a) + marked(b),
    decreases b.len(),
{
    if b.len() == 0 {
        assert(a + b =~= a);
        assert(marked(a) + marked(b) =~= marked(a));
    } else {
        lemma_marked_concat(a, b.drop_last());
        assert((a + b).drop_last() =~= a + b.drop_last());
        assert((a + b).last() == b.last());
        assert(marked(a + b) =~= marked(a) + marked(b));
    }
}

proof fn lemma_percent_marks(a: Seq<char>, b: Seq<char>)
    ensures
        marked(a + seq!['%'] + b) == marked(a) + any_mark() + marked(b),
{
    let p = seq!['%'];
    assert(p.drop_last() =~= Seq::empty());
    assert(marked(p) =~= any_mark()) by {
        reveal_with_fuel(marked, 2);
    }
    lemma_marked_concat(a, p);
    lemma_marked_concat(a + p, b);
}

/// A pattern with a `%` has several parts; where it ends with one, the last part is empty.
pub proof fn percent_separates_parts(pattern: Seq<char>)
    requires
        pattern.contains('%'),
    ensures
        parts_of(marked(pattern)).len() > 1,
        pattern.last() == '%' ==> parts_of(marked(pattern)).last().len() == 0,
{
    let i = choose|i: int| 0 <= i < pattern.len() && pattern[i] == '%';
    let a = pattern.take(i);
    let b = pattern.skip(i + 1);
    assert(pattern =~= a + seq!['%'] + b);
    lemma_percent_marks(a, b);
    let p = marked(pattern);
    let n = marked(a).len() as int;
    assert(p.subrange(n, n + 2) =~= any_mark());
    assert(stands_at(p, any_mark(), n));
    found_place_is_inside(p, any_mark(), 0);
    let q = find(p, any_mark())->Some_0;
    lemma_parts_not_empty(p.skip(q as int + 2));
    if pattern.last() == '%' {
        let front = pattern.drop_last();
        assert(pattern =~= front + seq!['%'] + Seq::empty());
        lemma_percent_marks(front, Seq::empty());
        assert(marked(front) + any_mark() + marked(Seq::empty()) =~= marked(front) + any_mark());
        lemma_mark_splits(marked(front));
    }
}

/// A text that matches a pattern with a `%` consists of the parts of the pattern, in order,
/// with some texts between them.
pub proof fn matching_text_holds_the_parts(s: Seq<char>, pattern: Seq<char>)
    requires
        pattern.contains('%'),
        like(s, pattern),
    ensures
        exists|gaps: Seq<Seq<char>>|
            gaps.len() == parts_of(marked(pattern)).len() - 1 && s == #[trigger] joined_by(
                parts_of(marked(pattern)),
                gaps,
            ),
{
    percent_separates_parts(pattern);
    let parts = parts_of(marked(pattern));
    lemma_parts_follow(s, parts, true);
    let gaps = gaps_before(s, parts);
    let left = behind_parts(s, parts, true)->Some_0;
    lemma_led_is_joined(parts, gaps);
    let between = gaps.skip(1);
    assert(gaps[0] + joined_by(parts, between) =~= joined_by(parts, between));
    if left.len() == 0 {
        assert(s =~= joined_by(parts, between));
    } else {
        lemma_last_gap(parts, between, left);
        let n = between.len() - 1;
        let wider = between.update(n, between[n] + left);
        assert(s == joined_by(parts, wider));
    }
}

proof fn lemma_last_gap(parts: Seq<Seq<char>>, gaps: Seq<Seq<char>>, left: Seq<char>)
    requires
        parts.len() > 1,
        gaps.len() == parts.len() - 1,
        parts.last().len() == 0,
    ensures
        joined_by(parts, gaps.update(gaps.len() - 1, gaps.last() + left)) == joined_by(parts, gaps)
            + left,
    decreases parts.len(),
{
    let wider = gaps.update(gaps.len() - 1, gaps.last() + left);
    let rest = parts.skip(1);
    if parts.len() == 2 {
        assert(joined_by(rest, gaps.skip(1)) =~= Seq::empty());
        assert(joined_by(rest, wider.skip(1)) =~= Seq::empty());
        assert(joined_by(parts, wider) =~= joined_by(parts, gaps) + left);
    } else {
        let later = gaps.skip(1);
        lemma_last_gap(rest, later, left);
        assert(wider.skip(1) =~= later.update(later.len() - 1, later.last() + left));
        assert(joined_by(parts, wider) =~= joined_by(parts, gaps) + left);
    }
}

/// A text that consists of the parts of a pattern, in order, with any texts between them,
/// matches the pattern, if it ends with `%`.
pub proof fn text_of_the_parts_matches(s: Seq<char>, pattern: Seq<char>, gaps: Seq<Seq<char>>)
    requires
        pattern.len() > 0,
        pattern.last() == '%',
        gaps.len() == parts_of(marked(pattern)).len() - 1,
        s == joined_by(parts_of(marked(pattern)), gaps),
    ensures
        like(s, pattern),
{
    assert(pattern[pattern.len() - 1] == '%');
    assert(pattern.contains('%'));
    percent_separates_parts(pattern);
    let parts = parts_of(marked(pattern));
    let none = Seq::<char>::empty();
    let led = seq![none] + gaps;
    assert(led.skip(1) =~= gaps);
    lemma_led_is_joined(parts, led);
    assert(none + joined_by(parts, gaps) =~= s);
    assert(led_by(parts, led) + none =~= s);
    if parts[0].len() == 0 {
        let tail = parts.skip(1);
        assert(led_by(parts, led) =~= led_by(tail, gaps));
        lemma_parts_found(s, tail, gaps, none);
    } else {
        let part = parts[0];
        assert(s =~= part + led_by(parts.skip(1), gaps));
        assert(s.subrange(0, part.len() as int) =~= part);
        assert(stands_at(s, part, 0));
        let rest = s.skip(part.len() as int);
        assert(rest =~= led_by(parts.skip(1), gaps) + none);
        lemma_parts_found(rest, parts.skip(1), gaps, none);
    }
}

} // verus!
