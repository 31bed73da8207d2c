//! Videos of what was seen beside what was imagined.
use crate::canvas::Color;
use crate::canvas::Picture;
use crate::layout::law_plane_offsets;
use crate::layout::planes;
use crate::text::decimal_text;
use crate::text::decimal_value;
use crate::text::digit_value;
use crate::text::law_numbers_read_back;
use crate::text::number_text;
use crate::text::padded;
use crate::text::padded_number_text;
use vstd::math::min;
use vstd::prelude::*;
use vstd::string::StringExecFns;

verus! {

/// A video has at most this many frames.
pub const LONGEST_VIDEO: usize = 100;

/// The colour of pixel `p` in three planes of `n` bytes.
pub open spec fn plane_color(data: Seq<u8>, n: int, p: int) -> Color {
    (data[p], data[n + p], data[2 * n + p])
}

/// Puts two frames of `width` by `height` pixels side by side: what was seen on the left, what was
/// imagined on the right. Both come as three planes.
pub fn make_comparison_frame(seen: &[u8], recon: &[u8], width: u32, height: u32) -> (picture: Picture)
    requires
        2 * width <= u32::MAX,
        6 * width <= usize::MAX,
        6 * width * height <= isize::MAX,
        3 * width * height <= seen.len(),
        3 * width * height <= recon.len(),
    ensures
        picture.wf(),
        picture.columns() == 2 * width,
        picture.rows() == height,
        forall|x: int, y: int|
            0 <= x < width && 0 <= y < height ==> #[trigger] picture.at(x, y) == plane_color(
                seen@,
                width * height,
                y * width + x,
            ),
        forall|x: int, y: int|
            width <= x < 2 * width && 0 <= y < height ==> #[trigger] picture.at(x, y)
                == plane_color(recon@, width * height, y * width + x - width),
{
    let ghost w = width as int;
    let ghost h = height as int;
    assert(3 * (2 * w) * h == 6 * w * h && 0 <= w * h && 3 * (w * h) == 3 * w * h && 6 * (w * h)
        == 6 * w * h) by (nonlinear_arith)
        requires
            0 <= w,
            0 <= h,
    ;
    let n: usize = width as usize * height as usize;
    let mut picture = Picture::new(2 * width, height);
    for y in 0..height
        invariant
            w == width,
            h == height,
            n == w * h,
            2 * width <= u32::MAX,
            3 * n <= seen.len(),
            3 * n <= recon.len(),
            picture.wf(),
            picture.columns() == 2 * width,
            picture.rows() == height,
            forall|px: int, py: int|
                0 <= px < width && 0 <= py < y ==> #[trigger] picture.at(px, py) == plane_color(
                    seen@,
                    n as int,
                    py * w + px,
                ),
            forall|px: int, py: int|
                width <= px < 2 * width && 0 <= py < y ==> #[trigger] picture.at(px, py)
                    == plane_color(recon@, n as int, py * w + px - w),
    {
        for x in 0..width
            invariant
                w == width,
                h == height,
                n == w * h,
                y < height,
                2 * width <= u32::MAX,
                3 * n <= seen.len(),
                3 * n <= recon.len(),
                picture.wf(),
                picture.columns() == 2 * width,
                picture.rows() == height,
                forall|px: int, py: int|
                    0 <= px < width && 0 <= py && (py < y || (py == y && px < x))
                        ==> #[trigger] picture.at(px, py) == plane_color(
                        seen@,
                        n as int,
                        py * w + px,
                    ),
                forall|px: int, py: int|
                    width <= px < 2 * width && 0 <= py && (py < y || (py == y && px < width + x))
                        ==> #[trigger] picture.at(px, py) == plane_color(
                        recon@,
                        n as int,
                        py * w + px - w,
                    ),
        {
            assert(0 <= y * w && y * w + w <= w * h) by (nonlinear_arith)
                requires
                    0 <= y < h,
                    0 <= w,
            ;
            let p: usize = y as usize * width as usize + x as usize;
            picture.put(x, y, (seen[p], seen[n + p], seen[2 * n + p]));
            picture.put(width + x, y, (recon[p], recon[n + p], recon[2 * n + p]));
        }
    }
    picture
}

/// The number of frames in a video of an episode with `n` observations.
pub fn video_length(n: usize) -> (frames: usize)
    ensures
        frames == min(n as int, 100),
{
    if n < LONGEST_VIDEO {
        n
    } else {
        LONGEST_VIDEO
    }
}

/// The directory for the frames of an episode's video.
pub open spec fn frame_dir_name(slots: bool, episode: nat) -> Seq<char> {
    (if slots {
        "frames/oc_ep_"@
    } else {
        "frames/ep_"@
    }) + padded(decimal_text(episode), 4)
}

/// The file of an episode's video.
pub open spec fn video_name(slots: bool, episode: nat) -> Seq<char> {
    (if slots {
        "output/oc_comparison_ep_"@
    } else {
        "output/comparison_ep_"@
    }) + padded(decimal_text(episode), 4) + ".mp4"@
}

/// The file of frame `t` in a directory.
pub open spec fn frame_name(dir: Seq<char>, t: nat) -> Seq<char> {
    dir + "/frame_"@ + padded(decimal_text(t), 4) + ".png"@
}

/// The file of a checkpoint.
pub open spec fn checkpoint_name(dir: Seq<char>, part: Seq<char>, episode: nat) -> Seq<char> {
    dir + "/"@ + part + "_ep_"@ + decimal_text(episode)
}

/// Names the directory for the frames of an episode's video.
pub fn frame_dir(slots: bool, episode: u64) -> (name: String)
    ensures
        name@ == frame_dir_name(slots, episode as nat),
{
    let mut name = if slots {
        String::from_str("frames/oc_ep_")
    } else {
        String::from_str("frames/ep_")
    };
    let number = padded_number_text(episode, 4);
    name.append(number.as_str());
    name
}

/// Names the file of an episode's video.
pub fn video_path(slots: bool, episode: u64) -> (name: String)
    ensures
        name@ == video_name(slots, episode as nat),
{
    let mut name = if slots {
        String::from_str("output/oc_comparison_ep_")
    } else {
        String::from_str("output/comparison_ep_")
    };
    let number = padded_number_text(episode, 4);
    name.append(number.as_str());
    name.append(".mp4");
    name
}

/// Names the file of frame `t` in a directory.
pub fn frame_path(dir: &str, t: u64) -> (name: String)
    ensures
        name@ == frame_name(dir@, t as nat),
{
    let mut name = String::from_str(dir);
    name.append("/frame_");
    let number = padded_number_text(t, 4);
    name.append(number.as_str());
    name.append(".png");
    name
}

/// Names the file of a checkpoint.
pub fn checkpoint_path(dir: &str, part: &str, episode: u64) -> (name: String)
    ensures
        name@ == checkpoint_name(dir@, part@, episode as nat),
{
    let mut name = String::from_str(dir);
    name.append("/");
    name.append(part);
    name.append("_ep_");
    let number = number_text(episode);
    name.append(number.as_str());
    name
}

/// Names the file of a checkpoint to start from.
pub fn stored_checkpoint_path(dir: &str, part: &str, tag: &str) -> (name: String)
    ensures
        name@ == dir@ + "/"@ + part@ + "_"@ + tag@,
{
    let mut name = String::from_str(dir);
    name.append("/");
    name.append(part);
    name.append("_");
    name.append(tag);
    name
}

/// The arguments that make ffmpeg join the frames of a directory into a video.
pub open spec fn encoder_args(dir: Seq<char>, output: Seq<char>, fps: nat) -> Seq<Seq<char>> {
    seq![
        "-y"@,
        "-framerate"@,
        decimal_text(fps),
        "-i"@,
        dir + "/frame_%04d.png"@,
        "-c:v"@,
        "libx264"@,
        "-pix_fmt"@,
        "yuv420p"@,
        output,
    ]
}

/// The arguments that make ffmpeg join the frames of a directory into a video.
pub fn frames_to_mp4_args(dir: &str, output: &str, fps: u32) -> (args: Vec<String>)
    ensures
        args@.map_values(|arg: String| arg@) == encoder_args(dir@, output@, fps as nat),
{
    let mut pattern = String::from_str(dir);
    pattern.append("/frame_%04d.png");
    let mut args: Vec<String> = Vec::new();
    args.push(String::from_str("-y"));
    args.push(String::from_str("-framerate"));
    args.push(number_text(fps as u64));
    args.push(String::from_str("-i"));
    args.push(pattern);
    args.push(String::from_str("-c:v"));
    args.push(String::from_str("libx264"));
    args.push(String::from_str("-pix_fmt"));
    args.push(String::from_str("yuv420p"));
    args.push(String::from_str(output));
    assert(args@.map_values(|arg: String| arg@) =~= encoder_args(dir@, output@, fps as nat));
    args
}

/// Zeros in front do not change a number.
proof fn lemma_zeros_in_front(s: Seq<char>, k: nat)
    ensures
        decimal_value(Seq::new(k, |i: int| '0') + s) == decimal_value(s),
    decreases s.len(), k,
{
    let zeros = Seq::new(k, |i: int| '0');
    let whole = zeros + s;
    if s.len() > 0 {
        assert(whole.drop_last() =~= zeros + s.drop_last());
        assert(whole.last() == s.last());
        lemma_zeros_in_front(s.drop_last(), k);
    } else if k > 0 {
        let fewer = Seq::new((k - 1) as nat, |i: int| '0');
        assert(whole.drop_last() =~= fewer + s);
        assert(whole.last() == '0');
        assert(digit_value('0') == 0);
        lemma_zeros_in_front(s, (k - 1) as nat);
    } else {
        assert(whole =~= s);
    }
}

/// Frames of one video never share a file.
pub proof fn law_frames_have_own_files(dir: Seq<char>, a: nat, b: nat)
    requires
        frame_name(dir, a) == frame_name(dir, b),
    ensures
        a == b,
{
    let head = dir + "/frame_"@;
    assert(frame_name(dir, a) =~= head + padded(decimal_text(a), 4) + ".png"@);
    assert(frame_name(dir, b) =~= head + padded(decimal_text(b), 4) + ".png"@);
    lemma_same_between(
        head,
        padded(decimal_text(a), 4),
        padded(decimal_text(b), 4),
        ".png"@,
    );
    lemma_padded_value(a);
    lemma_padded_value(b);
}

/// Texts that agree before and after a part agree in that part.
proof fn lemma_same_between(head: Seq<char>, a: Seq<char>, b: Seq<char>, tail: Seq<char>)
    requires
        head + a + tail == head + b + tail,
    ensures
        a == b,
{
    assert((head + a + tail).len() == head.len() + a.len() + tail.len());
    assert((head + b + tail).len() == head.len() + b.len() + tail.len());
    assert forall|i: int| 0 <= i < a.len() implies a[i] == b[i] by {
        assert((head + a + tail)[head.len() + i] == a[i]);
        assert((head + b + tail)[head.len() + i] == b[i]);
    }
    assert(a =~= b);
}

/// A padded number still has its value.
proof fn lemma_padded_value(n: nat)
    ensures
        decimal_value(padded(decimal_text(n), 4)) == n,
{
    law_numbers_read_back(n);
    let s = decimal_text(n);
    if s.len() < 4 {
        lemma_zeros_in_front(s, (4 - s.len()) as nat);
    }
}

/// The colour of a pixel is put together from the three planes that it was laid out in.
pub proof fn law_planes_are_put_together(pixels: Seq<Color>, p: int)
    requires
        0 <= p < pixels.len(),
    ensures
        plane_color(planes(pixels), pixels.len() as int, p) == pixels[p],
{
    law_plane_offsets(pixels, 0, p);
    law_plane_offsets(pixels, 1, p);
    law_plane_offsets(pixels, 2, p);
}

/// Episodes have directories and videos of their own, whichever kind of training made them.
pub proof fn law_episodes_have_own_files(slots: bool, a: nat, b: nat)
    ensures
        frame_dir_name(slots, a) == frame_dir_name(slots, b) ==> a == b,
        video_name(slots, a) == video_name(slots, b) ==> a == b,
        frame_dir_name(true, a) != frame_dir_name(false, b),
        video_name(true, a) != video_name(false, b),
{
    let pa = padded(decimal_text(a), 4);
    let pb = padded(decimal_text(b), 4);
    lemma_padded_value(a);
    lemma_padded_value(b);
    if frame_dir_name(slots, a) == frame_dir_name(slots, b) {
        let head = if slots {
            "frames/oc_ep_"@
        } else {
            "frames/ep_"@
        };
        let none = Seq::<char>::empty();
        assert(frame_dir_name(slots, a) =~= head + pa + none);
        assert(frame_dir_name(slots, b) =~= head + pb + none);
        lemma_same_between(head, pa, pb, none);
    }
    if video_name(slots, a) == video_name(slots, b) {
        let head = if slots {
            "output/oc_comparison_ep_"@
        } else {
            "output/comparison_ep_"@
        };
        lemma_same_between(head, pa, pb, ".mp4"@);
    }
    reveal_strlit("frames/oc_ep_");
    reveal_strlit("frames/ep_");
    reveal_strlit("output/oc_comparison_ep_");
    reveal_strlit("output/comparison_ep_");
    assert(frame_dir_name(true, a)[7] == 'o');
    assert(frame_dir_name(false, b)[7] == 'e');
    assert(video_name(true, a)[7] == 'o');
    assert(video_name(false, b)[7] == 'c');
}

} // verus!
