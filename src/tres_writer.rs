//! Godot `AtlasTexture` resource text for each packed sprite. Paths here are
//! '/'-separated strings, compared component by component.
use vstd::prelude::*;
use vstd::string::StrSliceExecFns;
use vstd::string::StringExecFns;
use crate::raster::Rect;
use crate::packer::SpritePackingError;
use crate::slash_path::{
    is_absolute, components, join, ranges_view, component_ranges, is_component,
    lemma_scan_components, lemma_components_of_join, lemma_join_start,
};

verus! {

/// Which Godot version the resource text is written for.
#[derive(Clone, Copy, PartialEq, Eq, Debug, Structural)]
pub enum ResourceFormat {
    Gd3,
    Gd4,
}

/// `path` with the directory `dir` taken off its front, component by
/// component: both are absolute or both relative, and the components of
/// `dir` begin those of `path`. The rest is joined with single separators.
pub open spec fn strip_dir(path: Seq<char>, dir: Seq<char>) -> Option<Seq<char>> {
    let pc = components(path);
    let dc = components(dir);
    if is_absolute(path) == is_absolute(dir) && dc.len() <= pc.len() && pc.subrange(0, dc.len() as int)
        == dc {
        Some(join(pc.skip(dc.len() as int)))
    } else {
        None
    }
}

/// What `strip_dir` gives is a relative path, and the directory's components
/// followed by its components are the components of the path: joining the
/// two names the path again.
pub proof fn lemma_strip_dir_relative(path: Seq<char>, dir: Seq<char>)
    requires
        strip_dir(path, dir) is Some,
    ensures
        ({
            let s = strip_dir(path, dir)->Some_0;
            &&& !is_absolute(s)
            &&& is_absolute(dir) == is_absolute(path)
            &&& components(dir) + components(s) == components(path)
        }),
{
    let pc = components(path);
    let dc = components(dir);
    let rest = pc.skip(dc.len() as int);
    lemma_scan_components(path, 0, 0, Seq::empty());
    assert forall|k: int| 0 <= k < rest.len() implies is_component(#[trigger] rest[k]) by {
        assert(rest[k] == pc[k + dc.len()]);
    }
    lemma_components_of_join(rest);
    lemma_join_start(rest);
    assert(dc + rest =~= pc);
}

/// The text of a decimal digit.
pub open spec fn digit_char(d: nat) -> char {
    if d == 0 {
        '0'
    } else if d == 1 {
        '1'
    } else if d == 2 {
        '2'
    } else if d == 3 {
        '3'
    } else if d == 4 {
        '4'
    } else if d == 5 {
        '5'
    } else if d == 6 {
        '6'
    } else if d == 7 {
        '7'
    } else if d == 8 {
        '8'
    } else {
        '9'
    }
}

/// The decimal numeral of `n`, without leading zeros.
pub open spec fn decimal(n: nat) -> Seq<char>
    decreases n,
{
    if n < 10 {
        seq![digit_char(n)]
    } else {
        decimal(n / 10).push(digit_char(n % 10))
    }
}

fn digit_str(d: usize) -> (s: &'static str)
    requires
        d < 10,
    ensures
        s@ == seq![digit_char(d as nat)],
{
    let s = if d == 0 {
        "0"
    } else if d == 1 {
        "1"
    } else if d == 2 {
        "2"
    } else if d == 3 {
        "3"
    } else if d == 4 {
        "4"
    } else if d == 5 {
        "5"
    } else if d == 6 {
        "6"
    } else if d == 7 {
        "7"
    } else if d == 8 {
        "8"
    } else {
        "9"
    };
    proof {
        reveal_strlit("0");
        reveal_strlit("1");
        reveal_strlit("2");
        reveal_strlit("3");
        reveal_strlit("4");
        reveal_strlit("5");
        reveal_strlit("6");
        reveal_strlit("7");
        reveal_strlit("8");
        reveal_strlit("9");
        assert(s@ =~= seq![digit_char(d as nat)]);
    }
    s
}

/// The decimal text of `n`.
pub fn decimal_string(n: usize) -> (s: String)
    ensures
        s@ == decimal(n as nat),
    decreases n,
{
    if n < 10 {
        digit_str(n).to_owned()
    } else {
        let mut s = decimal_string(n / 10);
        s.append(digit_str(n % 10));
        s
    }
}

/// Whether the segments at `ra` of `a` and at `rb` of `b` are the same text.
fn same_segment(a: &str, ra: (usize, usize), b: &str, rb: (usize, usize)) -> (r: bool)
    requires
        ra.0 <= ra.1 <= a@.len(),
        rb.0 <= rb.1 <= b@.len(),
    ensures
        r == (a@.subrange(ra.0 as int, ra.1 as int) == b@.subrange(rb.0 as int, rb.1 as int)),
{
    if ra.1 - ra.0 != rb.1 - rb.0 {
        assert(a@.subrange(ra.0 as int, ra.1 as int).len() != b@.subrange(
            rb.0 as int,
            rb.1 as int,
        ).len());
        return false;
    }
    let n = ra.1 - ra.0;
    let mut k: usize = 0;
    while k < n
        invariant
            ra.0 <= ra.1 <= a@.len(),
            rb.0 <= rb.1 <= b@.len(),
            n == ra.1 - ra.0,
            n == rb.1 - rb.0,
            k <= n,
            forall|kk: int|
                0 <= kk < k ==> #[trigger] a@.subrange(ra.0 as int, ra.1 as int)[kk] == b@.subrange(
                    rb.0 as int,
                    rb.1 as int,
                )[kk],
        decreases n - k,
    {
        if a.get_char(ra.0 + k) != b.get_char(rb.0 + k) {
            assert(a@.subrange(ra.0 as int, ra.1 as int)[k as int] != b@.subrange(
                rb.0 as int,
                rb.1 as int,
            )[k as int]);
            return false;
        }
        k = k + 1;
    }
    assert(a@.subrange(ra.0 as int, ra.1 as int) =~= b@.subrange(rb.0 as int, rb.1 as int));
    true
}

fn starts_at_root(p: &str) -> (r: bool)
    ensures
        r == is_absolute(p@),
{
    p.unicode_len() > 0 && p.get_char(0) == '/'
}

/// The text before the atlas path.
pub open spec fn head_text(format: ResourceFormat) -> Seq<char> {
    match format {
        ResourceFormat::Gd3 => "[gd_resource type=\"AtlasTexture\" load_steps=2 format=2]\n\n[ext_resource path=\""@,
        ResourceFormat::Gd4 => "[gd_resource type=\"AtlasTexture\" load_steps=2 format=3]\n\n[ext_resource type=\"Texture2D\" path=\""@,
    }
}

/// The text between the atlas path and the region's first number.
pub open spec fn mid_text(format: ResourceFormat) -> Seq<char> {
    match format {
        ResourceFormat::Gd3 => "\" type=\"Texture\" id=1]\n\n[resource]\nflags = 4\natlas = ExtResource( 1 )\nregion = Rect2( "@,
        ResourceFormat::Gd4 => "\" id=\"1\"]\n\n[resource]\natlas = ExtResource(\"1\")\nregion = Rect2("@,
    }
}

/// The text after the region's last number.
pub open spec fn tail_text(format: ResourceFormat) -> Seq<char> {
    match format {
        ResourceFormat::Gd3 => " )\n\n"@,
        ResourceFormat::Gd4 => ")\n\n"@,
    }
}

/// The resource text that points at the atlas `res://<relative>` and
/// selects `region` of it.
pub open spec fn descriptor_text(format: ResourceFormat, relative: Seq<char>, region: Rect) -> Seq<char> {
    head_text(format) + "res://"@ + relative + mid_text(format) + decimal(region.x as nat) + ", "@
        + decimal(region.y as nat) + ", "@ + decimal(region.w as nat) + ", "@ + decimal(
        region.h as nat,
    ) + tail_text(format)
}

fn head_str(format: ResourceFormat) -> (s: &'static str)
    ensures
        s@ == head_text(format),
{
    match format {
        ResourceFormat::Gd3 => "[gd_resource type=\"AtlasTexture\" load_steps=2 format=2]\n\n[ext_resource path=\"",
        ResourceFormat::Gd4 => "[gd_resource type=\"AtlasTexture\" load_steps=2 format=3]\n\n[ext_resource type=\"Texture2D\" path=\"",
    }
}

fn mid_str(format: ResourceFormat) -> (s: &'static str)
    ensures
        s@ == mid_text(format),
{
    match format {
        ResourceFormat::Gd3 => "\" type=\"Texture\" id=1]\n\n[resource]\nflags = 4\natlas = ExtResource( 1 )\nregion = Rect2( ",
        ResourceFormat::Gd4 => "\" id=\"1\"]\n\n[resource]\natlas = ExtResource(\"1\")\nregion = Rect2(",
    }
}

fn tail_str(format: ResourceFormat) -> (s: &'static str)
    ensures
        s@ == tail_text(format),
{
    match format {
        ResourceFormat::Gd3 => " )\n\n",
        ResourceFormat::Gd4 => ")\n\n",
    }
}

/// Writes one `AtlasTexture` resource per packed sprite, each pointing at
/// the atlas through its project-relative path.
pub struct AtlasResourceWriter {
    /// The atlas path relative to the Godot project root.
    pub godot_relative_path: String,
    /// The atlas path as given.
    pub output_path: String,
    pub format: ResourceFormat,
}

impl AtlasResourceWriter {
    /// A writer for the atlas at `output_path`, inside the project rooted at
    /// `project_dir` (the nearest ancestor holding the project file), or
    /// outside any project when there is none. Fails with `IoError` when
    /// `project_dir` is not an ancestor of `output_path`.
    pub fn new(output_path: String, format: ResourceFormat, project_dir: Option<String>) -> (r: Result<
        AtlasResourceWriter,
        SpritePackingError,
    >)
        ensures
            project_dir is None ==> r is Ok,
            project_dir matches Some(d) ==> (r is Ok <==> strip_dir(output_path@, d@) is Some),
            r matches Ok(w) ==> w.output_path == output_path && w.format == format && Some(
                w.godot_relative_path@,
            ) == match project_dir {
                None => Some(output_path@),
                Some(d) => strip_dir(output_path@, d@),
            },
            r matches Err(e) ==> e is IoError,
    {
        let relative = match &project_dir {
            None => Self::get_path_relative_to_gd_proj(output_path.as_str(), None),
            Some(d) => Self::get_path_relative_to_gd_proj(output_path.as_str(), Some(d.as_str())),
        };
        match relative {
            Some(godot_relative_path) => Ok(AtlasResourceWriter { godot_relative_path, output_path, format }),
            None => Err(
                SpritePackingError::IoError(
                    "Couldn't create Godot-relative path from output path.".to_owned(),
                ),
            ),
        }
    }

    /// Takes the project directory off the front of `path`, component by
    /// component, giving the path as Godot's `res://` sees it: a relative
    /// path that, joined to the directory, names `path` again. Without a
    /// project directory the path is kept as it is; `None` when the
    /// directory is not an ancestor of the path.
    pub fn get_path_relative_to_gd_proj(path: &str, project_dir: Option<&str>) -> (r: Option<String>)
        ensures
            project_dir is None ==> (r matches Some(s) && s@ == path@),
            project_dir matches Some(d) ==> (r is Some <==> strip_dir(path@, d@) is Some),
            project_dir matches Some(d) ==> (r matches Some(s) ==> {
                &&& strip_dir(path@, d@) == Some(s@)
                &&& !is_absolute(s@)
                &&& components(d@) + components(s@) == components(path@)
            }),
    {
        let dir = match project_dir {
            None => return Some(path.to_owned()),
            Some(d) => d,
        };
        if starts_at_root(path) != starts_at_root(dir) {
            return None;
        }
        let pr = component_ranges(path);
        let dr = component_ranges(dir);
        let ghost pc = components(path@);
        let ghost dc = components(dir@);
        assert(pr@.len() == pc.len() && dr@.len() == dc.len()) by {
            assert(ranges_view(path@, pr@).len() == pr@.len());
            assert(ranges_view(dir@, dr@).len() == dr@.len());
        }
        if dr.len() > pr.len() {
            return None;
        }
        let mut k: usize = 0;
        while k < dr.len()
            invariant
                ranges_view(path@, pr@) == pc,
                ranges_view(dir@, dr@) == dc,
                pr@.len() == pc.len(),
                dr@.len() == dc.len(),
                dc.len() <= pc.len(),
                forall|i: int| 0 <= i < pr@.len() ==> #[trigger] pr@[i].0 <= pr@[i].1 <= path@.len(),
                forall|i: int| 0 <= i < dr@.len() ==> #[trigger] dr@[i].0 <= dr@[i].1 <= dir@.len(),
                k <= dr@.len(),
                forall|i: int| 0 <= i < k ==> #[trigger] pc[i] == dc[i],
                pc == components(path@),
                dc == components(dir@),
                project_dir == Some(dir),
                is_absolute(path@) == is_absolute(dir@),
            decreases dr@.len() - k,
        {
            assert(pc[k as int] == path@.subrange(pr@[k as int].0 as int, pr@[k as int].1 as int));
            assert(dc[k as int] == dir@.subrange(dr@[k as int].0 as int, dr@[k as int].1 as int));
            if !same_segment(dir, dr[k], path, pr[k]) {
                assert(pc[k as int] != dc[k as int]);
                assert(pc.subrange(0, dc.len() as int)[k as int] == pc[k as int]);
                assert(pc.subrange(0, dc.len() as int) != dc);
                assert(strip_dir(path@, dir@) is None);
                return None;
            }
            k = k + 1;
        }
        assert(pc.subrange(0, dc.len() as int) =~= dc);
        let nd = dr.len();
        let np = pr.len();
        let mut text = String::new();
        let mut k: usize = nd;
        assert(pc.subrange(nd as int, nd as int) =~= Seq::<Seq<char>>::empty());
        while k < np
            invariant
                ranges_view(path@, pr@) == pc,
                pr@.len() == pc.len(),
                np == pr@.len(),
                forall|i: int| 0 <= i < pr@.len() ==> #[trigger] pr@[i].0 <= pr@[i].1 <= path@.len(),
                nd <= k <= np,
                text@ == join(pc.subrange(nd as int, k as int)),
                pc == components(path@),
            decreases np - k,
        {
            if k > nd {
                text.append("/");
            }
            let (s, e) = pr[k];
            let seg = path.substring_char(s, e);
            assert(seg@ == pc[k as int]);
            text.append(seg);
            proof {
                reveal_strlit("/");
                let cs = pc.subrange(nd as int, k + 1);
                assert(cs.drop_last() =~= pc.subrange(nd as int, k as int));
                assert(cs.last() == pc[k as int]);
                if k == nd {
                    assert(text@ =~= join(cs));
                } else {
                    assert(text@ =~= join(cs));
                }
            }
            k = k + 1;
        }
        assert(pc.subrange(nd as int, np as int) =~= pc.skip(nd as int));
        proof {
            lemma_strip_dir_relative(path@, dir@);
        }
        Some(text)
    }

    /// The resource text for the sprite placed at `region` of the atlas.
    pub fn write(&self, region: &Rect) -> (text: String)
        ensures
            text@ == descriptor_text(self.format, self.godot_relative_path@, *region),
    {
        let mut text = head_str(self.format).to_owned();
        text.append("res://");
        text.append(self.godot_relative_path.as_str());
        text.append(mid_str(self.format));
        text.append(decimal_string(region.x).as_str());
        text.append(", ");
        text.append(decimal_string(region.y).as_str());
        text.append(", ");
        text.append(decimal_string(region.w).as_str());
        text.append(", ");
        text.append(decimal_string(region.h).as_str());
        text.append(tail_str(self.format));
        text
    }
}

} // verus!
