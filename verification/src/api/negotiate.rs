//! Choosing between the JSON and HTML representation of a resource.
//!
//! OGC API Common's HTML conformance class puts both representations on the
//! same URL, so the choice is made per request: an explicit `f=html` wins, and
//! otherwise the `Accept` header decides. A browser asks for `text/html` and
//! gets a page; `curl`, which sends `*/*`, keeps getting JSON.
use vstd::prelude::*;
use vstd::slice::slice_subrange;

use crate::double::Double;
use crate::edr::params;
use crate::numerals::{self, Numerals};
use crate::text::{self, chars_of, lower, spells, split, string_of, trim};

verus! {

/// Which representation to serve.
#[derive(Debug, Clone, Copy, PartialEq, Eq, Structural)]
pub enum Representation {
    Json,
    Html,
}

impl Representation {
    pub fn is_html(self) -> (r: bool)
        ensures
            r == (self == Representation::Html),
    {
        match self {
            Representation::Html => true,
            Representation::Json => false,
        }
    }
}

/// The bits of the quality of an entry that gives none, 1.
pub const FULL: u64 = 0x3ff0_0000_0000_0000;

/// The quality that some parameters of an entry give: that of the first `q`,
/// where it is a number.
pub open spec fn quality(parts: Seq<Seq<char>>, m: Map<Seq<char>, Double>) -> Double
    decreases parts.len(),
{
    if parts.len() == 0 {
        Double { bits: FULL }
    } else if text::begins(text::trimmed(parts.first()), "q="@) {
        match numerals::reading(m, text::trimmed(text::trimmed(parts.first()).skip(2))) {
            Some(q) => q,
            None => Double { bits: FULL },
        }
    } else {
        quality(parts.drop_first(), m)
    }
}

pub open spec fn asks_html(media_type: Seq<char>) -> bool {
    media_type == "text/html"@
}

pub open spec fn asks_json(media_type: Seq<char>) -> bool {
    media_type == "application/json"@ || media_type == "application/geo+json"@ || media_type
        == "application/prs.coverage+json"@ || media_type == "application/*"@ || media_type
        == "*/*"@
}

/// The media type that an entry names.
pub open spec fn media_type(entry: Seq<char>) -> Seq<char> {
    text::lowered(text::trimmed(text::pieces(entry, ';')[0]))
}

pub open spec fn entry_quality(entry: Seq<char>, m: Map<Seq<char>, Double>) -> Double {
    quality(text::pieces(entry, ';').drop_first(), m)
}

/// The greatest quality at which some entries ask for HTML, and for JSON.
pub open spec fn qualities(entries: Seq<Seq<char>>, m: Map<Seq<char>, Double>) -> (Double, Double)
    decreases entries.len(),
{
    if entries.len() == 0 {
        (Double { bits: 0 }, Double { bits: 0 })
    } else {
        let (html, json) = qualities(entries.drop_last(), m);
        let e = entries.last();
        let q = entry_quality(e, m);
        (
            if asks_html(media_type(e)) {
                html.greater(q)
            } else {
                html
            },
            if asks_json(media_type(e)) {
                json.greater(q)
            } else {
                json
            },
        )
    }
}

/// Whether an `Accept` header asks for HTML in preference to JSON. Ties go to
/// JSON.
pub open spec fn html_preferred(accept: Seq<char>, m: Map<Seq<char>, Double>) -> bool {
    let (html, json) = qualities(text::pieces(accept, ','), m);
    json.less(html)
}

fn read_quality(parts: &Vec<Vec<char>>, numerals: &Numerals) -> (r: Double)
    requires
        numerals.wf(),
        parts@.len() >= 1,
    ensures
        r == quality(text::views(parts@).drop_first(), numerals@),
{
    proof {
        reveal_strlit("q=");
    }
    let ghost all = text::views(parts@);
    let mut i: usize = 1;
    assert(all.drop_first() == all.skip(1));
    while i < parts.len()
        invariant
            numerals.wf(),
            "q="@.len() == 2,
            all == text::views(parts@),
            1 <= i <= parts@.len(),
            quality(all.drop_first(), numerals@) == quality(all.skip(i as int), numerals@),
        decreases parts@.len() - i,
    {
        let t = trim(parts[i].as_slice());
        proof {
            assert(all.skip(i as int).first() == parts@[i as int]@);
            assert(all.skip(i as int).drop_first() == all.skip(i + 1));
        }
        if text::starts_with(t, "q=") {
            let rest = slice_subrange(t, 2, t.len());
            assert(rest@ == t@.skip(2));
            return match numerals.value(trim(rest)) {
                Some(q) => q,
                None => Double { bits: FULL },
            };
        }
        i += 1;
    }
    Double { bits: FULL }
}

/// Whether an `Accept` header asks for HTML in preference to JSON, its quality
/// values read beforehand.
///
/// Only an explicit `text/html` counts: a browser sends
/// `text/html,…,*/*;q=0.8` and wants a page, while `*/*` on its own is a tool
/// taking whatever it is given, and this is a JSON API first. Ties go to JSON.
pub fn prefers_html(accept: &str, numerals: &Numerals) -> (r: bool)
    requires
        numerals.wf(),
    ensures
        r == html_preferred(accept@, numerals@),
{
    let chars = chars_of(accept);
    let entries = split(chars.as_slice(), ',');
    let ghost all = text::views(entries@);
    let mut html: Double = Double { bits: 0 };
    let mut json: Double = Double { bits: 0 };
    let mut i: usize = 0;
    while i < entries.len()
        invariant
            numerals.wf(),
            all == text::views(entries@),
            i <= entries@.len(),
            qualities(all.take(i as int), numerals@) == (html, json),
        decreases entries@.len() - i,
    {
        proof {
            assert(all.take(i + 1).drop_last() == all.take(i as int));
            assert(all.take(i + 1).last() == entries@[i as int]@);
        }
        let parts = split(entries[i].as_slice(), ';');
        assert(text::views(parts@)[0] == parts@[0]@);
        let kind = lower(trim(parts[0].as_slice()));
        let q = read_quality(&parts, numerals);
        let k = kind.as_slice();
        if spells(k, "text/html") {
            html = html.max(q);
        }
        if spells(k, "application/json") || spells(k, "application/geo+json") || spells(
            k,
            "application/prs.coverage+json",
        ) || spells(k, "application/*") || spells(k, "*/*") {
            json = json.max(q);
        }
        i += 1;
    }
    assert(all.take(i as int) == all);
    json.is_less(html)
}

/// The texts that stand where a quality belongs: the `q` parameters of every
/// entry.
pub open spec fn part_numerals(parts: Seq<Seq<char>>) -> Seq<Seq<char>>
    decreases parts.len(),
{
    if parts.len() == 0 {
        Seq::empty()
    } else if text::begins(text::trimmed(parts.last()), "q="@) {
        part_numerals(parts.drop_last()).push(
            text::trimmed(text::trimmed(parts.last()).skip(2)),
        )
    } else {
        part_numerals(parts.drop_last())
    }
}

/// A header's entries, split at its commas and at their semicolons.
pub open spec fn all_parts(accept: Seq<char>) -> Seq<Seq<char>> {
    flattened(text::pieces(accept, ','))
}

pub open spec fn flattened(entries: Seq<Seq<char>>) -> Seq<Seq<char>>
    decreases entries.len(),
{
    if entries.len() == 0 {
        Seq::empty()
    } else {
        flattened(entries.drop_last()) + text::pieces(entries.last(), ';')
    }
}

/// List the texts that stand where a quality belongs in an `Accept` header.
pub fn accept_numerals(accept: &str) -> (r: Vec<String>)
    ensures
        text::texts(r@) == part_numerals(all_parts(accept@)),
{
    proof {
        reveal_strlit("q=");
    }
    let chars = chars_of(accept);
    let entries = split(chars.as_slice(), ',');
    let ghost all = text::views(entries@);
    let mut out: Vec<String> = Vec::new();
    let mut i: usize = 0;
    assert(text::texts(out@) =~= Seq::<Seq<char>>::empty());
    assert(flattened(all.take(0)) == Seq::<Seq<char>>::empty());
    while i < entries.len()
        invariant
            "q="@.len() == 2,
            all == text::views(entries@),
            i <= entries@.len(),
            text::texts(out@) == part_numerals(flattened(all.take(i as int))),
        decreases entries@.len() - i,
    {
        let parts = split(entries[i].as_slice(), ';');
        let ghost base = flattened(all.take(i as int));
        let ghost ps = text::views(parts@);
        let mut j: usize = 0;
        assert(base + ps.take(0) == base);
        while j < parts.len()
            invariant
                "q="@.len() == 2,
                ps == text::views(parts@),
                j <= parts@.len(),
                text::texts(out@) == part_numerals(base + ps.take(j as int)),
            decreases parts@.len() - j,
        {
            proof {
                let next = base + ps.take(j + 1);
                assert(next.drop_last() == base + ps.take(j as int));
                assert(next.last() == parts@[j as int]@);
            }
            let t = trim(parts[j].as_slice());
            if text::starts_with(t, "q=") {
                let rest = slice_subrange(t, 2, t.len());
                assert(rest@ == t@.skip(2));
                let ghost before = text::texts(out@);
                let q = string_of(trim(rest));
                out.push(q);
                assert(text::texts(out@) =~= before.push(q@));
            }
            j += 1;
        }
        proof {
            assert(ps.take(j as int) == ps);
            assert(all.take(i + 1).drop_last() == all.take(i as int));
            assert(all.take(i + 1).last() == entries@[i as int]@);
        }
        i += 1;
    }
    assert(all.take(i as int) == all);
    out
}

/// The value of the `f` parameter, under either case of its key; the last where
/// there are several.
pub open spec fn chosen_format(pairs: Seq<(Seq<char>, Seq<char>)>) -> Option<Seq<char>>
    decreases pairs.len(),
{
    if pairs.len() == 0 {
        None
    } else if text::lowered(pairs.last().0) == "f"@ {
        Some(text::lowered(text::trimmed(pairs.last().1)))
    } else {
        chosen_format(pairs.drop_last())
    }
}

/// The representation that a request is served.
pub open spec fn wanted(
    pairs: Seq<(Seq<char>, Seq<char>)>,
    accept: Seq<char>,
    m: Map<Seq<char>, Double>,
) -> Representation {
    let html = match chosen_format(pairs) {
        Some(f) => f == "html"@ || f == "text/html"@,
        None => html_preferred(accept, m),
    };
    if html {
        Representation::Html
    } else {
        Representation::Json
    }
}

/// The representation that a request asks for.
#[derive(Debug, Clone, Copy, PartialEq, Eq, Structural)]
pub struct Wants(pub Representation);

impl Wants {
    /// The representation that a request asks for: by its query's pairs, its
    /// `Accept` header, and what the header's quality values stand for.
    ///
    /// `f` is explicit and settles it. Any value but HTML (CoverageJSON, GeoJSON,
    /// or something unsupported) is left to the data handler, which validates it
    /// and reports a usable error.
    pub fn of(pairs: &Vec<(String, String)>, accept: &str, numerals: &Numerals) -> (r: Wants)
        requires
            numerals.wf(),
        ensures
            r.0 == wanted(params::pairs_of(pairs@), accept@, numerals@),
    {
        let ghost all = params::pairs_of(pairs@);
        let mut i: usize = pairs.len();
        assert(all.take(i as int) == all);
        while i > 0
            invariant
                numerals.wf(),
                all == params::pairs_of(pairs@),
                i <= pairs@.len(),
                chosen_format(all) == chosen_format(all.take(i as int)),
            decreases i,
        {
            proof {
                assert(all.take(i as int).drop_last() == all.take(i - 1));
                assert(all.take(i as int).last() == all[i - 1]);
            }
            let key = lower(chars_of(pairs[i - 1].0.as_str()).as_slice());
            if spells(key.as_slice(), "f") {
                let value = chars_of(pairs[i - 1].1.as_str());
                let f = lower(trim(value.as_slice()));
                if spells(f.as_slice(), "html") || spells(f.as_slice(), "text/html") {
                    return Wants(Representation::Html);
                }
                return Wants(Representation::Json);
            }
            i -= 1;
        }
        if prefers_html(accept, numerals) {
            Wants(Representation::Html)
        } else {
            Wants(Representation::Json)
        }
    }
}

/// An explicit `f` settles the representation, whatever the header says.
pub proof fn an_explicit_format_settles_it(
    pairs: Seq<(Seq<char>, Seq<char>)>,
    a: Seq<char>,
    b: Seq<char>,
    m: Map<Seq<char>, Double>,
)
    requires
        chosen_format(pairs) is Some,
    ensures
        wanted(pairs, a, m) == wanted(pairs, b, m),
{
}

/// Ties go to JSON: a header whose best quality for JSON is its best for HTML
/// does not prefer HTML.
pub proof fn ties_go_to_json(accept: Seq<char>, m: Map<Seq<char>, Double>)
    requires
        qualities(text::pieces(accept, ','), m).0.equal(
            qualities(text::pieces(accept, ','), m).1,
        ),
    ensures
        !html_preferred(accept, m),
{
}

/// A header that does not name `text/html` never prefers HTML, whatever its
/// qualities.
pub proof fn only_an_explicit_html_type_counts(accept: Seq<char>, m: Map<Seq<char>, Double>)
    requires
        forall|i: int|
            0 <= i < text::pieces(accept, ',').len() ==> !asks_html(
                media_type(#[trigger] text::pieces(accept, ',')[i]),
            ),
    ensures
        !html_preferred(accept, m),
{
    no_html_no_quality(text::pieces(accept, ','), m);
}

proof fn no_html_no_quality(entries: Seq<Seq<char>>, m: Map<Seq<char>, Double>)
    requires
        forall|i: int| 0 <= i < entries.len() ==> !asks_html(media_type(#[trigger] entries[i])),
    ensures
        qualities(entries, m).0 == (Double { bits: 0 }),
        !qualities(entries, m).1.nan(),
        (Double { bits: 0 }).at_most(qualities(entries, m).1),
    decreases entries.len(),
{
    if entries.len() > 0 {
        let front = entries.drop_last();
        assert forall|i: int| 0 <= i < front.len() implies !asks_html(
            media_type(#[trigger] front[i]),
        ) by {
            assert(front[i] == entries[i]);
        }
        no_html_no_quality(front, m);
        assert(entries[entries.len() - 1] == entries.last());
    }
}

/// An entry names `text/html`, in any case and with space around it.
pub open spec fn names_html(entry: Seq<char>) -> bool {
    text::lowered(text::trimmed(text::pieces(entry, ';')[0])) == "text/html"@
}

/// An entry names a type that JSON is served under, or a range that holds one.
pub open spec fn names_json(entry: Seq<char>) -> bool {
    let t = text::lowered(text::trimmed(text::pieces(entry, ';')[0]));
    ||| t == "application/json"@
    ||| t == "application/geo+json"@
    ||| t == "application/prs.coverage+json"@
    ||| t == "application/*"@
    ||| t == "*/*"@
}

/// An entry names `text/html` at a quality above zero and above that of every
/// entry that JSON answers.
pub open spec fn leads(entries: Seq<Seq<char>>, m: Map<Seq<char>, Double>, i: int) -> bool {
    &&& 0 <= i < entries.len()
    &&& names_html(entries[i])
    &&& (Double { bits: 0 }).less(entry_quality(entries[i], m))
    &&& forall|j: int|
        0 <= j < entries.len() && names_json(#[trigger] entries[j]) && !entry_quality(
            entries[j],
            m,
        ).nan() ==> entry_quality(entries[j], m).less(entry_quality(entries[i], m))
}

/// An entry's quality is at most a bound, or is not a number.
pub open spec fn reaches(entry: Seq<char>, m: Map<Seq<char>, Double>, bound: Double) -> bool {
    entry_quality(entry, m).nan() || entry_quality(entry, m).at_most(bound)
}

proof fn best_qualities(entries: Seq<Seq<char>>, m: Map<Seq<char>, Double>)
    ensures
        ({
            let (h, j) = qualities(entries, m);
            let zero = Double { bits: 0 };
            &&& zero.at_most(h) && zero.at_most(j)
            &&& forall|i: int|
                0 <= i < entries.len() && names_html(#[trigger] entries[i]) ==> reaches(
                    entries[i],
                    m,
                    h,
                )
            &&& forall|i: int|
                0 <= i < entries.len() && names_json(#[trigger] entries[i]) ==> reaches(
                    entries[i],
                    m,
                    j,
                )
            &&& h == zero || exists|i: int|
                0 <= i < entries.len() && names_html(#[trigger] entries[i]) && entry_quality(
                    entries[i],
                    m,
                ) == h
            &&& j == zero || exists|i: int|
                0 <= i < entries.len() && names_json(#[trigger] entries[i]) && entry_quality(
                    entries[i],
                    m,
                ) == j
        }),
    decreases entries.len(),
{
    if entries.len() > 0 {
        let front = entries.drop_last();
        best_qualities(front, m);
        let (h, j) = qualities(entries, m);
        let (fh, fj) = qualities(front, m);
        let zero = Double { bits: 0 };
        let n = entries.len() - 1;
        assert(entries[n] == entries.last());
        assert forall|i: int| 0 <= i < entries.len() && names_html(#[trigger] entries[i]) implies
            reaches(entries[i], m, h) by {
            if i < n {
                assert(front[i] == entries[i]);
            }
        }
        assert forall|i: int| 0 <= i < entries.len() && names_json(#[trigger] entries[i]) implies
            reaches(entries[i], m, j) by {
            if i < n {
                assert(front[i] == entries[i]);
            }
        }
        if h == fh && h != zero {
            let i = choose|i: int|
                0 <= i < front.len() && names_html(#[trigger] front[i]) && entry_quality(
                    front[i],
                    m,
                ) == fh;
            assert(entries[i] == front[i]);
        }
        if j == fj && j != zero {
            let i = choose|i: int|
                0 <= i < front.len() && names_json(#[trigger] front[i]) && entry_quality(
                    front[i],
                    m,
                ) == fj;
            assert(entries[i] == front[i]);
        }
    }
}

/// A header prefers HTML exactly where it names `text/html` at a quality above
/// zero and above that of all it says of JSON.
pub proof fn html_is_preferred_where_it_is_asked_for_most(
    accept: Seq<char>,
    m: Map<Seq<char>, Double>,
)
    ensures
        html_preferred(accept, m) <==> exists|i: int|
            #[trigger] leads(text::pieces(accept, ','), m, i),
{
    let entries = text::pieces(accept, ',');
    let (h, j) = qualities(entries, m);
    best_qualities(entries, m);
    if html_preferred(accept, m) {
        let i = choose|i: int|
            0 <= i < entries.len() && names_html(#[trigger] entries[i]) && entry_quality(
                entries[i],
                m,
            ) == h;
        assert forall|k: int|
            0 <= k < entries.len() && names_json(#[trigger] entries[k]) && !entry_quality(
                entries[k],
                m,
            ).nan() implies entry_quality(entries[k], m).less(entry_quality(entries[i], m)) by {
            assert(reaches(entries[k], m, j));
        }
        assert(leads(entries, m, i));
    }
    if exists|i: int| #[trigger] leads(entries, m, i) {
        let i = choose|i: int| #[trigger] leads(entries, m, i);
        assert(reaches(entries[i], m, h));
    }
}

/// The quality of an entry is what its first `q` parameter says, where that is a
/// number, and one otherwise.
pub proof fn the_first_quality_counts(entry: Seq<char>, k: int, m: Map<Seq<char>, Double>)
    requires
        1 <= k <= text::pieces(entry, ';').len(),
        forall|i: int|
            1 <= i < k ==> !text::begins(
                text::trimmed(#[trigger] text::pieces(entry, ';')[i]),
                "q="@,
            ),
    ensures
        k == text::pieces(entry, ';').len() ==> entry_quality(entry, m).bits
            == 0x3ff0_0000_0000_0000,
        k < text::pieces(entry, ';').len() && text::begins(
            text::trimmed(text::pieces(entry, ';')[k]),
            "q="@,
        ) ==> ({
            let given = text::trimmed(text::trimmed(text::pieces(entry, ';')[k]).skip(2));
            match numerals::reading(m, given) {
                Some(q) => entry_quality(entry, m) == q,
                None => entry_quality(entry, m).bits == 0x3ff0_0000_0000_0000,
            }
        }),
{
    let parts = text::pieces(entry, ';').drop_first();
    assert forall|i: int| 0 <= i < k - 1 implies !text::begins(
        text::trimmed(#[trigger] parts[i]),
        "q="@,
    ) by {
        assert(parts[i] == text::pieces(entry, ';')[i + 1]);
    }
    quality_after(parts, k - 1, m);
    if k - 1 < parts.len() {
        assert(parts.skip(k - 1).first() == text::pieces(entry, ';')[k]);
    }
}

proof fn quality_after(parts: Seq<Seq<char>>, k: int, m: Map<Seq<char>, Double>)
    requires
        0 <= k <= parts.len(),
        forall|i: int|
            0 <= i < k ==> !text::begins(text::trimmed(#[trigger] parts[i]), "q="@),
    ensures
        quality(parts, m) == quality(parts.skip(k), m),
    decreases k,
{
    if k == 0 {
        assert(parts.skip(0) == parts);
    } else {
        assert(parts.first() == parts[0]);
        let rest = parts.drop_first();
        assert forall|i: int| 0 <= i < k - 1 implies !text::begins(
            text::trimmed(#[trigger] rest[i]),
            "q="@,
        ) by {
            assert(rest[i] == parts[i + 1]);
        }
        quality_after(rest, k - 1, m);
        assert(rest.skip(k - 1) == parts.skip(k));
    }
}

/// Of several `f` parameters the last counts, whatever case its key and value
/// are in: HTML is served where it says `html` or `text/html`, and JSON where
/// it says anything else.
pub proof fn the_last_format_counts(
    pairs: Seq<(Seq<char>, Seq<char>)>,
    k: int,
    accept: Seq<char>,
    m: Map<Seq<char>, Double>,
)
    requires
        0 <= k < pairs.len(),
        text::lowered(pairs[k].0) == "f"@,
        forall|i: int| k < i < pairs.len() ==> text::lowered((#[trigger] pairs[i]).0) != "f"@,
    ensures
        wanted(pairs, accept, m) == Representation::Html <==> text::lowered(
            text::trimmed(pairs[k].1),
        ) == "html"@ || text::lowered(text::trimmed(pairs[k].1)) == "text/html"@,
    decreases pairs.len(),
{
    assert(pairs[pairs.len() - 1] == pairs.last());
    if k < pairs.len() - 1 {
        let front = pairs.drop_last();
        assert forall|i: int| k < i < front.len() implies text::lowered((#[trigger] front[i]).0)
            != "f"@ by {
            assert(front[i] == pairs[i]);
        }
        the_last_format_counts(front, k, accept, m);
    }
}

/// Without an `f` parameter the header decides.
pub proof fn without_a_format_the_header_decides(
    pairs: Seq<(Seq<char>, Seq<char>)>,
    accept: Seq<char>,
    m: Map<Seq<char>, Double>,
)
    requires
        forall|i: int| 0 <= i < pairs.len() ==> text::lowered((#[trigger] pairs[i]).0) != "f"@,
    ensures
        wanted(pairs, accept, m) == Representation::Html <==> html_preferred(accept, m),
    decreases pairs.len(),
{
    if pairs.len() > 0 {
        assert(pairs[pairs.len() - 1] == pairs.last());
        let front = pairs.drop_last();
        assert forall|i: int| 0 <= i < front.len() implies text::lowered((#[trigger] front[i]).0)
            != "f"@ by {
            assert(front[i] == pairs[i]);
        }
        without_a_format_the_header_decides(front, accept, m);
    }
}

} // verus!
