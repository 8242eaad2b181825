//! The fuzzy finder's command line: which fields of a row it shows, which
//! it hands to the preview, and what each key does with the picked rows.

use vstd::prelude::*;
use crate::display::{row_fields, smart_label_spec, window_command};
use crate::encoding::base64_text;
use crate::kitty_api::Window;
use crate::kitty_client::views;
use crate::text::{decimal, decimal_text};
use crate::utils::clean_spec;
use vstd::utf8::encode_utf8;

verus! {

/// The field of a row (counted from 1) that holds the window id.
pub const FIELD_ID: usize = 1;

/// The field that holds the command line in base64.
pub const FIELD_CMD_BASE64: usize = 5;

/// The field that holds the creation time.
pub const FIELD_CREATED: usize = 7;

/// The field that holds the working directory in base64.
pub const FIELD_CWD_BASE64: usize = 8;

/// The field shown in the list: the label.
pub const FIELD_LABEL: usize = 9;

/// The fields named by the constants above are, in a row, the window's id,
/// its command line in base64, its creation time, its directory in base64
/// and its label: what the preview and the list take from them.
pub proof fn lemma_field_numbers(win: Window, home: Option<Seq<char>>)
    ensures
        row_fields(win, home)[FIELD_ID - 1] == decimal(win.id as int),
        row_fields(win, home)[FIELD_CMD_BASE64 - 1] == base64_text(encode_utf8(window_command(win))),
        row_fields(win, home)[FIELD_CREATED - 1] == decimal(win.created_at as int),
        row_fields(win, home)[FIELD_CWD_BASE64 - 1] == base64_text(encode_utf8(clean_spec(win.cwd@))),
        row_fields(win, home)[FIELD_LABEL - 1] == smart_label_spec(
            window_command(win),
            clean_spec(win.cwd@),
            home,
        ),
{
}

/// fzf's placeholder for field `n` of the current row (`{n}`), or of every
/// picked row (`{+n}`).
pub open spec fn field_ref(n: nat, picked: bool) -> Seq<char> {
    (if picked {
        "{+"@
    } else {
        "{"@
    }) + decimal(n as int) + "}"@
}

/// The preview command: `preview-static` with the id, the command line in
/// base64, the directory in base64 and the creation time of the row.
pub open spec fn preview_command_spec() -> Seq<char> {
    "\"$WINSEL_BIN\" preview-static "@ + field_ref(FIELD_ID as nat, false) + " "@ + field_ref(
        FIELD_CMD_BASE64 as nat,
        false,
    ) + " "@ + field_ref(FIELD_CWD_BASE64 as nat, false) + " "@ + field_ref(FIELD_CREATED as nat, false)
}

/// The key bindings: each runs the selector on the ids of the picked rows.
pub open spec fn bind_spec() -> Seq<char> {
    let ids = field_ref(FIELD_ID as nat, true);
    "enter:execute-silent($WINSEL_BIN apply "@ + ids + ")+accept,ctrl-z:execute-silent($WINSEL_BIN apply-bg "@
        + ids + ")+accept,ctrl-t:execute-silent($WINSEL_BIN apply-tab "@ + ids
        + ")+accept,ctrl-h:execute-silent($WINSEL_BIN split-h "@ + ids
        + ")+accept,ctrl-v:execute-silent($WINSEL_BIN split-v "@ + ids + ")+accept,ctrl-y:execute-silent($WINSEL_BIN yank "@
        + ids + ")"@
}

/// The arguments of fzf: rows split on tabs, the label shown, the preview
/// and the key bindings.
pub open spec fn fzf_args_spec() -> Seq<Seq<char>> {
    seq![
        "--prompt=WINSEL> "@,
        "--multi"@,
        "--ansi"@,
        "--delimiter"@,
        "\t"@,
        "--with-nth="@ + decimal(FIELD_LABEL as int),
        "--layout=reverse"@,
        "--no-select-1"@,
        "--no-exit-0"@,
        "--info=right"@,
        "--border"@,
        "--border-label-pos=bottom"@,
        "--border-label= ↵:focus z:bg t:tab h:hsplit v:vsplit y:yank "@,
        "--preview"@,
        preview_command_spec(),
        "--preview-window=right:60%,nowrap,follow,~4"@,
        "--bind"@,
        bind_spec(),
    ]
}

fn field_ref_text(n: usize, picked: bool) -> (r: String)
    ensures
        r@ == field_ref(n as nat, picked),
{
    let mut r = if picked {
        "{+".to_owned()
    } else {
        "{".to_owned()
    };
    let d = decimal_text(n as i128);
    r.append(d.as_str());
    r.append("}");
    r
}

fn push_arg(out: &mut Vec<String>, s: String)
    ensures
        views(final(out)@) == views(old(out)@).push(s@),
{
    out.push(s);
    proof {
        assert(views(out@) == views(old(out)@).push(s@));
    }
}

/// The arguments of fzf (see `fzf_args_spec`).
pub fn fzf_args() -> (r: Vec<String>)
    ensures
        views(r@) == fzf_args_spec(),
{
    let mut r: Vec<String> = Vec::new();
    push_arg(&mut r, "--prompt=WINSEL> ".to_owned());
    push_arg(&mut r, "--multi".to_owned());
    push_arg(&mut r, "--ansi".to_owned());
    push_arg(&mut r, "--delimiter".to_owned());
    push_arg(&mut r, "\t".to_owned());
    let mut nth = "--with-nth=".to_owned();
    let label = decimal_text(FIELD_LABEL as i128);
    nth.append(label.as_str());
    push_arg(&mut r, nth);
    push_arg(&mut r, "--layout=reverse".to_owned());
    push_arg(&mut r, "--no-select-1".to_owned());
    push_arg(&mut r, "--no-exit-0".to_owned());
    push_arg(&mut r, "--info=right".to_owned());
    push_arg(&mut r, "--border".to_owned());
    push_arg(&mut r, "--border-label-pos=bottom".to_owned());
    push_arg(&mut r, "--border-label= ↵:focus z:bg t:tab h:hsplit v:vsplit y:yank ".to_owned());
    push_arg(&mut r, "--preview".to_owned());
    let mut preview = "\"$WINSEL_BIN\" preview-static ".to_owned();
    preview.append(field_ref_text(FIELD_ID, false).as_str());
    preview.append(" ");
    preview.append(field_ref_text(FIELD_CMD_BASE64, false).as_str());
    preview.append(" ");
    preview.append(field_ref_text(FIELD_CWD_BASE64, false).as_str());
    preview.append(" ");
    preview.append(field_ref_text(FIELD_CREATED, false).as_str());
    push_arg(&mut r, preview);
    push_arg(&mut r, "--preview-window=right:60%,nowrap,follow,~4".to_owned());
    push_arg(&mut r, "--bind".to_owned());
    let ids = field_ref_text(FIELD_ID, true);
    let mut bind = "enter:execute-silent($WINSEL_BIN apply ".to_owned();
    bind.append(ids.as_str());
    bind.append(")+accept,ctrl-z:execute-silent($WINSEL_BIN apply-bg ");
    bind.append(ids.as_str());
    bind.append(")+accept,ctrl-t:execute-silent($WINSEL_BIN apply-tab ");
    bind.append(ids.as_str());
    bind.append(")+accept,ctrl-h:execute-silent($WINSEL_BIN split-h ");
    bind.append(ids.as_str());
    bind.append(")+accept,ctrl-v:execute-silent($WINSEL_BIN split-v ");
    bind.append(ids.as_str());
    bind.append(")+accept,ctrl-y:execute-silent($WINSEL_BIN yank ");
    bind.append(ids.as_str());
    bind.append(")");
    push_arg(&mut r, bind);
    proof {
        assert(views(r@) =~= fzf_args_spec());
    }
    r
}

} // verus!
