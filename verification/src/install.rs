//! The launchd job that keeps the helper running.

use vstd::prelude::*;

use crate::state::State;
use crate::when::{describe, describes};

verus! {

pub open spec fn plist_head() -> Seq<char> {
    "<?xml version=\"1.0\" encoding=\"UTF-8\"?>
<!DOCTYPE plist PUBLIC \"-//Apple//DTD PLIST 1.0//EN\" \"http://www.apple.com/DTDs/PropertyList-1.0.dtd\">
<plist version=\"1.0\">
<dict>
  <key>Label</key><string>dev.oceanheart.tto</string>
  <key>ProgramArguments</key><array>
    <string>"@
}

pub open spec fn plist_tail() -> Seq<char> {
    "</string>
    <string>daemon</string>
  </array>
  <key>RunAtLoad</key><true/>
  <key>KeepAlive</key><true/>
  <key>ProcessType</key><string>Background</string>
  <key>StandardErrorPath</key><string>/var/log/tto.log</string>
  <key>StandardOutPath</key><string>/var/log/tto.log</string>
</dict>
</plist>
"@
}

/// The launchd property list that runs `helper daemon` as root at every
/// boot and keeps it alive.
pub fn plist_xml(helper: &str) -> (r: String)
    ensures
        r@ == plist_head() + helper@ + plist_tail(),
{
    let mut x = String::from_str(
        "<?xml version=\"1.0\" encoding=\"UTF-8\"?>
<!DOCTYPE plist PUBLIC \"-//Apple//DTD PLIST 1.0//EN\" \"http://www.apple.com/DTDs/PropertyList-1.0.dtd\">
<plist version=\"1.0\">
<dict>
  <key>Label</key><string>dev.oceanheart.tto</string>
  <key>ProgramArguments</key><array>
    <string>",
    );
    x.append(helper);
    x.append(
        "</string>
    <string>daemon</string>
  </array>
  <key>RunAtLoad</key><true/>
  <key>KeepAlive</key><true/>
  <key>ProcessType</key><string>Background</string>
  <key>StandardErrorPath</key><string>/var/log/tto.log</string>
  <key>StandardOutPath</key><string>/var/log/tto.log</string>
</dict>
</plist>
",
    );
    x
}

/// Uninstalling is refused while a block is on at `now`, with when it ends:
/// it is not a back door.
pub fn uninstall_refusal(state: &State, now: u64) -> (r: Option<String>)
    ensures
        r is Some <==> state.spec_active_at(now),
        r matches Some(m) ==> exists|w: Seq<char>|
            #[trigger] describes(state.until, w) && m@ == "a block is active until "@ + w
                + ". Uninstall is not a back door; try again then. (`tto recovery` if you truly must.)"@,
{
    if !state.active_at(now) {
        return None;
    }
    let w = describe(state.until);
    let mut m = String::from_str("a block is active until ");
    m.append(w.as_str());
    m.append(". Uninstall is not a back door; try again then. (`tto recovery` if you truly must.)");
    assert(describes(state.until, w@));
    Some(m)
}

} // verus!
