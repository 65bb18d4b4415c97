use vstd::prelude::*;
use crate::text::{
    append_range, chars_contain, chars_of, chars_range, chars_start_with, has_prefix, has_substring,
    decimal, decimal_string, is_digit, law_decimal_injective, lemma_decimal, lemma_trim_facts,
    lemma_trim_noop, string_from_range, trim, trim_bounds,
};

verus! {

/// The views of a list of strings.
pub open spec fn texts(v: Seq<String>) -> Seq<Seq<char>> {
    v.map_values(|s: String| s@)
}

/// What an image link becomes before it is downloaded: trimmed, with a
/// scheme-relative `//host/...` link given `https:`; a link that is empty
/// after trimming, or that starts neither with `//` nor with `http`, is
/// dropped.
pub open spec fn spec_sanitize_image_url(link: Seq<char>) -> Option<Seq<char>> {
    let t = trim(link);
    if t.len() == 0 {
        None
    } else if has_prefix(t, "//"@) {
        Some("https:"@ + t)
    } else if has_prefix(t, "http"@) {
        Some(t)
    } else {
        None
    }
}

/// Sanitizes an image URL.
pub fn sanitize_image_url(link: &str) -> (r: Option<String>)
    ensures
        r matches Some(u) ==> spec_sanitize_image_url(link@) == Some(u@),
        r is None ==> spec_sanitize_image_url(link@) is None,
{
    let cs = chars_of(link);
    let (a, b) = trim_bounds(&cs);
    if a == b {
        return None;
    }
    let t = chars_range(&cs, a, b);
    if chars_start_with(&t, &chars_of("//")) {
        let mut r = String::new();
        r.append("https:");
        append_range(&mut r, &t, 0, t.len());
        assert(t@.subrange(0, t@.len() as int) == t@);
        Some(r)
    } else if chars_start_with(&t, &chars_of("http")) {
        Some(string_from_range(&t, 0, t.len()))
    } else {
        None
    }
}

/// The Unicode lowercase form of `s`, as `str::to_lowercase` computes it.
pub uninterp spec fn lowercase(s: Seq<char>) -> Seq<char>;

/// Lowercases `s`.
///
/// Trusted: calls `str::to_lowercase`; the contract claims only that its
/// result depends on `s` alone (Unicode's lowercase mapping is not stated).
#[verifier::external_body]
fn to_lowercase(s: &str) -> (r: String)
    ensures
        r@ == lowercase(s@),
{
    s.to_lowercase()
}

/// The file extension picked for an image whose lowercased link is `lower`.
pub open spec fn extension_of_lowercase(lower: Seq<char>) -> Seq<char> {
    if has_substring(lower, ".webp"@) {
        ".webp"@
    } else if has_substring(lower, ".png"@) {
        ".png"@
    } else if has_substring(lower, ".jpeg"@) {
        ".jpeg"@
    } else {
        ".jpg"@
    }
}

/// The file extension picked for an image at `link`.
pub open spec fn spec_detect_extension(link: Seq<char>) -> Seq<char> {
    extension_of_lowercase(lowercase(link))
}

/// The extension for an already lowercased link: `.webp`, `.png` or `.jpeg`
/// when the link holds it (tested in that order), else `.jpg`.
pub fn extension_for_lowercase(lower: &str) -> (r: &'static str)
    ensures
        r@ == extension_of_lowercase(lower@),
{
    let cs = chars_of(lower);
    if chars_contain(&cs, &chars_of(".webp")) {
        ".webp"
    } else if chars_contain(&cs, &chars_of(".png")) {
        ".png"
    } else if chars_contain(&cs, &chars_of(".jpeg")) {
        ".jpeg"
    } else {
        ".jpg"
    }
}

/// Detects the image extension from a URL, defaulting to `.jpg`.
pub fn detect_extension(link: &str) -> (r: &'static str)
    ensures
        r@ == spec_detect_extension(link@),
{
    let lower = to_lowercase(link);
    extension_for_lowercase(lower.as_str())
}

/// `list` with every repeated element left out, each kept where it first
/// occurs.
pub open spec fn unique_in_order(list: Seq<Seq<char>>) -> Seq<Seq<char>>
    decreases list.len(),
{
    if list.len() == 0 {
        list
    } else {
        let u = unique_in_order(list.drop_last());
        if u.contains(list.last()) {
            u
        } else {
            u.push(list.last())
        }
    }
}

/// Whether `v` holds a string equal to `x`.
pub fn list_contains(v: &Vec<String>, x: &String) -> (r: bool)
    ensures
        r == texts(v@).contains(x@),
{
    let mut j: usize = 0;
    while j < v.len()
        invariant
            j <= v.len(),
            forall|k: int| 0 <= k < j ==> v@[k]@ != x@,
        decreases v.len() - j,
    {
        if v[j] == *x {
            assert(texts(v@)[j as int] == x@);
            return true;
        }
        j = j + 1;
    }
    assert forall|k: int| 0 <= k < texts(v@).len() implies texts(v@)[k] != x@ by {
        assert(texts(v@)[k] == v@[k]@);
    }
    false
}

/// The strings of `list` with repeats left out, in order of first occurrence.
pub fn dedup_in_order(list: &Vec<String>) -> (r: Vec<String>)
    ensures
        texts(r@) == unique_in_order(texts(list@)),
{
    let mut out: Vec<String> = Vec::new();
    let mut i: usize = 0;
    while i < list.len()
        invariant
            i <= list.len(),
            texts(out@) == unique_in_order(texts(list@.subrange(0, i as int))),
        decreases list.len() - i,
    {
        let ghost pre = texts(list@.subrange(0, i as int));
        let ghost cur = texts(list@.subrange(0, i + 1));
        assert(cur.drop_last() == pre);
        assert(cur.last() == list@[i as int]@);
        if !list_contains(&out, &list[i]) {
            let x = list[i].clone();
            out.push(x);
            assert(texts(out@) == texts(out@.drop_last()).push(x@));
        }
        i = i + 1;
    }
    assert(list@.subrange(0, list.len() as int) == list@);
    out
}


/// The folder of one item: `base/item_id`.
pub open spec fn spec_item_folder(base: Seq<char>, item_id: Seq<char>) -> Seq<char> {
    base + "/"@ + item_id
}

/// The metadata file of an item folder: `folder/data.json`.
pub open spec fn spec_data_file(folder: Seq<char>) -> Seq<char> {
    folder + "/data.json"@
}

/// The file that the image at position `index` (from 0) of an item is saved
/// to, once its link is `url`: `folder/<index + 1><extension>`.
pub open spec fn spec_image_file(folder: Seq<char>, index: nat, url: Seq<char>) -> Seq<char> {
    folder + "/"@ + decimal(index + 1) + spec_detect_extension(url)
}

/// What is downloaded for an item with image links `links`: for each link that
/// sanitizes to a URL, in order, that URL and the file it is saved to.
pub open spec fn download_plan(links: Seq<Seq<char>>, folder: Seq<char>) -> Seq<(Seq<char>, Seq<char>)>
    decreases links.len(),
{
    if links.len() == 0 {
        Seq::empty()
    } else {
        let prev = download_plan(links.drop_last(), folder);
        match spec_sanitize_image_url(links.last()) {
            Some(url) => prev.push((url, spec_image_file(folder, (links.len() - 1) as nat, url))),
            None => prev,
        }
    }
}

/// One image to fetch: from `url` into the file `path`.
pub struct ImageDownload {
    pub url: String,
    pub path: String,
}

/// The views of a list of downloads.
pub open spec fn downloads_view(v: Seq<ImageDownload>) -> Seq<(Seq<char>, Seq<char>)> {
    v.map_values(|d: ImageDownload| (d.url@, d.path@))
}

/// The folder that an item is written to.
pub fn item_folder(base: &str, item_id: &str) -> (r: String)
    ensures
        r@ == spec_item_folder(base@, item_id@),
{
    let mut r = String::new();
    r.append(base);
    r.append("/");
    r.append(item_id);
    r
}

/// The metadata file of an item folder.
pub fn data_file(folder: &str) -> (r: String)
    ensures
        r@ == spec_data_file(folder@),
{
    let mut r = String::new();
    r.append(folder);
    r.append("/data.json");
    r
}

/// The file for the image at `index` whose sanitized link is `url`.
pub fn image_file(folder: &str, index: usize, url: &str) -> (r: String)
    requires
        index < usize::MAX,
    ensures
        r@ == spec_image_file(folder@, index as nat, url@),
{
    let mut r = String::new();
    r.append(folder);
    r.append("/");
    let n = decimal_string(index + 1);
    r.append(n.as_str());
    r.append(detect_extension(url));
    r
}

/// The downloads of an item whose folder is `folder`.
pub fn plan_downloads(links: &Vec<String>, folder: &str) -> (r: Vec<ImageDownload>)
    ensures
        downloads_view(r@) == download_plan(texts(links@), folder@),
{
    let mut out: Vec<ImageDownload> = Vec::new();
    let mut i: usize = 0;
    while i < links.len()
        invariant
            i <= links.len(),
            downloads_view(out@) == download_plan(texts(links@.subrange(0, i as int)), folder@),
        decreases links.len() - i,
    {
        let ghost pre = texts(links@.subrange(0, i as int));
        let ghost cur = texts(links@.subrange(0, i + 1));
        assert(cur.drop_last() == pre);
        assert(cur.last() == links@[i as int]@);
        match sanitize_image_url(links[i].as_str()) {
            Some(url) => {
                let path = image_file(folder, i, url.as_str());
                out.push(ImageDownload { url, path });
                assert(downloads_view(out@) == downloads_view(out@.drop_last()).push(
                    (out@.last().url@, out@.last().path@),
                ));
            },
            None => {},
        }
        i = i + 1;
    }
    assert(links@.subrange(0, links.len() as int) == links@);
    out
}


/// Law: a sanitized link starts with `http`, has no whitespace at either end,
/// and sanitizing it again gives it back unchanged.
pub proof fn law_sanitize_idempotent(link: Seq<char>)
    requires
        spec_sanitize_image_url(link) is Some,
    ensures
        has_prefix(spec_sanitize_image_url(link)->0, "http"@),
        trim(spec_sanitize_image_url(link)->0) == spec_sanitize_image_url(link)->0,
        spec_sanitize_image_url(spec_sanitize_image_url(link)->0) == spec_sanitize_image_url(link),
{
    reveal_strlit("//");
    reveal_strlit("http");
    reveal_strlit("https:");
    let t = trim(link);
    lemma_trim_facts(link);
    let u = spec_sanitize_image_url(link)->0;
    if has_prefix(t, "//"@) {
        assert(u == "https:"@ + t);
        assert(u[0] == 'h');
        assert(u.last() == t.last());
        lemma_trim_noop(u);
        assert(u.subrange(0, 4) == "http"@);
        assert(u.subrange(0, 2) != "//"@) by {
            assert(u.subrange(0, 2)[0] == 'h');
        }
    } else {
        assert(u == t);
        assert(t.subrange(0, 4) == "http"@);
        assert(t[0] == 'h') by {
            assert(t.subrange(0, 4)[0] == t[0]);
        }
        assert(t.subrange(0, 2) != "//"@) by {
            assert(t.subrange(0, 2)[0] == 'h');
        }
    }
}


/// Law: with repeats left out, no element occurs twice, and every element of
/// the list is still there (and nothing else).
pub proof fn law_unique_in_order(list: Seq<Seq<char>>)
    ensures
        forall|i: int, j: int|
            0 <= i < j < unique_in_order(list).len() ==> unique_in_order(list)[i]
                != unique_in_order(list)[j],
        forall|x: Seq<char>| unique_in_order(list).contains(x) <==> list.contains(x),
    decreases list.len(),
{
    if list.len() > 0 {
        let pre = list.drop_last();
        law_unique_in_order(pre);
        let u = unique_in_order(pre);
        assert forall|x: Seq<char>| unique_in_order(list).contains(x) <==> list.contains(x) by {
            if list.contains(x) {
                let k = choose|k: int| 0 <= k < list.len() && list[k] == x;
                if k < list.len() - 1 {
                    assert(pre[k] == x);
                }
            }
            if pre.contains(x) {
                let k = choose|k: int| 0 <= k < pre.len() && pre[k] == x;
                assert(list[k] == x);
            }
            if !u.contains(list.last()) {
                if u.push(list.last()).contains(x) {
                    let k = choose|k: int| 0 <= k < u.push(list.last()).len() && u.push(list.last())[k] == x;
                    if k < u.len() {
                        assert(u[k] == x);
                    }
                }
                if u.contains(x) {
                    let k = choose|k: int| 0 <= k < u.len() && u[k] == x;
                    assert(u.push(list.last())[k] == x);
                }
                assert(u.push(list.last())[u.len() as int] == list.last());
            }
        }
    }
}


proof fn lemma_extension_starts_with_dot(url: Seq<char>)
    ensures
        spec_detect_extension(url).len() > 0,
        spec_detect_extension(url)[0] == '.',
{
    reveal_strlit(".webp");
    reveal_strlit(".png");
    reveal_strlit(".jpeg");
    reveal_strlit(".jpg");
}

/// Law: images at different positions of an item go to different files.
pub proof fn law_image_files_distinct(
    folder: Seq<char>,
    i: nat,
    j: nat,
    u: Seq<char>,
    v: Seq<char>,
)
    requires
        i != j,
    ensures
        spec_image_file(folder, i, u) != spec_image_file(folder, j, v),
{
    if spec_image_file(folder, i, u) == spec_image_file(folder, j, v) {
        let pre = folder + "/"@;
        let da = decimal(i + 1);
        let db = decimal(j + 1);
        let eu = spec_detect_extension(u);
        let ev = spec_detect_extension(v);
        let p = spec_image_file(folder, i, u);
        lemma_decimal(i + 1);
        lemma_decimal(j + 1);
        lemma_extension_starts_with_dot(u);
        lemma_extension_starts_with_dot(v);
        let a = da + eu;
        let b = db + ev;
        assert(p == pre + a);
        assert(p == pre + b);
        assert(a == p.subrange(pre.len() as int, p.len() as int));
        assert(b == p.subrange(pre.len() as int, p.len() as int));
        if da.len() < db.len() {
            assert(a[da.len() as int] == '.');
            assert(b[da.len() as int] == db[da.len() as int]);
            assert(is_digit(db[da.len() as int]));
        } else if db.len() < da.len() {
            assert(b[db.len() as int] == '.');
            assert(a[db.len() as int] == da[db.len() as int]);
            assert(is_digit(da[db.len() as int]));
        } else {
            assert(da == a.subrange(0, da.len() as int));
            assert(db == b.subrange(0, db.len() as int));
            law_decimal_injective(i + 1, j + 1);
        }
    }
}

/// The positions, in the item's image list, of the images a plan downloads.
pub open spec fn plan_positions(links: Seq<Seq<char>>) -> Seq<nat>
    decreases links.len(),
{
    if links.len() == 0 {
        Seq::empty()
    } else {
        let prev = plan_positions(links.drop_last());
        match spec_sanitize_image_url(links.last()) {
            Some(_) => prev.push((links.len() - 1) as nat),
            None => prev,
        }
    }
}

proof fn lemma_plan_positions(links: Seq<Seq<char>>, folder: Seq<char>)
    ensures
        plan_positions(links).len() == download_plan(links, folder).len(),
        forall|k: int|
            0 <= k < plan_positions(links).len() ==> #[trigger] plan_positions(links)[k]
                < links.len(),
        forall|k: int, m: int|
            0 <= k < m < plan_positions(links).len() ==> plan_positions(links)[k] < plan_positions(
                links,
            )[m],
        forall|k: int|
            0 <= k < download_plan(links, folder).len() ==> (#[trigger] download_plan(
                links,
                folder,
            )[k]).1 == spec_image_file(
                folder,
                plan_positions(links)[k],
                download_plan(links, folder)[k].0,
            ),
    decreases links.len(),
{
    if links.len() > 0 {
        lemma_plan_positions(links.drop_last(), folder);
    }
}

/// Law: no two downloads of an item write to the same file, and every
/// download fetches a link starting with `http`.
pub proof fn law_download_plan(links: Seq<Seq<char>>, folder: Seq<char>)
    ensures
        forall|k: int, m: int|
            0 <= k < m < download_plan(links, folder).len() ==> download_plan(links, folder)[k].1
                != download_plan(links, folder)[m].1,
        forall|k: int|
            0 <= k < download_plan(links, folder).len() ==> has_prefix(
                #[trigger] download_plan(links, folder)[k].0,
                "http"@,
            ),
    decreases links.len(),
{
    let plan = download_plan(links, folder);
    let pos = plan_positions(links);
    lemma_plan_positions(links, folder);
    assert forall|k: int, m: int| 0 <= k < m < plan.len() implies plan[k].1 != plan[m].1 by {
        law_image_files_distinct(folder, pos[k], pos[m], plan[k].0, plan[m].0);
    }
    if links.len() > 0 {
        law_download_plan(links.drop_last(), folder);
        match spec_sanitize_image_url(links.last()) {
            Some(url) => {
                law_sanitize_idempotent(links.last());
                let prev = download_plan(links.drop_last(), folder);
                assert forall|k: int| 0 <= k < plan.len() implies has_prefix(
                    #[trigger] plan[k].0,
                    "http"@,
                ) by {
                    if k < prev.len() {
                        assert(plan[k] == prev[k]);
                    }
                }
            },
            None => {},
        }
    }
}


/// Law: an item's metadata file is never one of its image files.
pub proof fn law_data_file_not_an_image(folder: Seq<char>, i: nat, url: Seq<char>)
    ensures
        spec_data_file(folder) != spec_image_file(folder, i, url),
{
    reveal_strlit("/data.json");
    reveal_strlit("/");
    let pre = folder + "/"@;
    let d = spec_data_file(folder);
    let m = spec_image_file(folder, i, url);
    lemma_decimal(i + 1);
    assert(d[folder.len() as int + 1] == 'd');
    assert(m[folder.len() as int + 1] == decimal(i + 1)[0]);
    assert(is_digit(decimal(i + 1)[0]));
}


proof fn lemma_plan_holds_each(links: Seq<Seq<char>>, folder: Seq<char>)
    ensures
        download_plan(links, folder).len() == links.filter(
            |l: Seq<char>| spec_sanitize_image_url(l) is Some,
        ).len(),
        forall|i: int|
            0 <= i < links.len() && (#[trigger] spec_sanitize_image_url(links[i])) is Some
                ==> download_plan(links, folder).contains(
                (
                    spec_sanitize_image_url(links[i])->0,
                    spec_image_file(folder, i as nat, spec_sanitize_image_url(links[i])->0),
                ),
            ),
    decreases links.len(),
{
    reveal_with_fuel(Seq::<Seq<char>>::filter, 1);
    if links.len() > 0 {
        let pre = links.drop_last();
        lemma_plan_holds_each(pre, folder);
        let prev = download_plan(pre, folder);
        let plan = download_plan(links, folder);
        assert forall|i: int|
            0 <= i < links.len() && (#[trigger] spec_sanitize_image_url(links[i])) is Some
                implies plan.contains(
                (
                    spec_sanitize_image_url(links[i])->0,
                    spec_image_file(folder, i as nat, spec_sanitize_image_url(links[i])->0),
                ),
            ) by {
            let u = spec_sanitize_image_url(links[i])->0;
            let entry = (u, spec_image_file(folder, i as nat, u));
            if i < links.len() - 1 {
                assert(pre[i] == links[i]);
                assert(spec_sanitize_image_url(pre[i]) is Some);
                let k = choose|k: int| 0 <= k < prev.len() && prev[k] == entry;
                if spec_sanitize_image_url(links.last()) is Some {
                    assert(plan[k] == prev[k]);
                } else {
                    assert(plan == prev);
                }
            } else {
                assert(links.last() == links[i]);
                assert(plan[plan.len() - 1] == entry);
            }
        }
    }
}

/// Law: every image link that sanitizes to a URL is downloaded: the plan has
/// one entry per such link, and for the link at position `i` it fetches the
/// sanitized URL into the file numbered `i + 1`.
pub proof fn law_every_usable_link_downloaded(links: Seq<Seq<char>>, folder: Seq<char>)
    ensures
        download_plan(links, folder).len() == links.filter(
            |l: Seq<char>| spec_sanitize_image_url(l) is Some,
        ).len(),
        forall|i: int|
            0 <= i < links.len() && (#[trigger] spec_sanitize_image_url(links[i])) is Some
                ==> download_plan(links, folder).contains(
                (
                    spec_sanitize_image_url(links[i])->0,
                    spec_image_file(folder, i as nat, spec_sanitize_image_url(links[i])->0),
                ),
            ),
{
    lemma_plan_holds_each(links, folder);
}

/// Law: a link that, once trimmed, starts with `http` (`http:` and `https:`
/// alike) is kept as trimmed; one that starts with `//` gets `https:` before it.
pub proof fn law_sanitize_keeps_web_links(link: Seq<char>)
    ensures
        trim(link).len() > 0 && has_prefix(trim(link), "http"@) ==> spec_sanitize_image_url(link)
            == Some(trim(link)),
        trim(link).len() > 0 && has_prefix(trim(link), "//"@) ==> spec_sanitize_image_url(link)
            == Some("https:"@ + trim(link)),
{
    reveal_strlit("//");
    reveal_strlit("http");
    let t = trim(link);
    if t.len() > 0 && has_prefix(t, "http"@) {
        assert(t.subrange(0, 4)[0] == 'h');
        assert(t.subrange(0, 2)[0] == t[0]);
        assert(!has_prefix(t, "//"@));
    }
}

} // verus!
