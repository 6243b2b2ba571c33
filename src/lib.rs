// Keeps several save-game profiles for a game that reads a single save folder
// (the slot): profiles are archived in their own directories and swapped into
// the slot by copying, or by pointing a link at them.
//
// text     character helpers
// marker   the marker file that names the profile in the slot
// profiles the profile store: listing, menu, name rules
// slot     what occupies the slot
// swap     the file-system model, the steps and the swap plans
// laws     what the plans guarantee, proved over the model
// walk     copying and emptying directory trees one directory at a time
// session  one run, from the slot as found to the launch

pub mod text;
pub mod marker;
pub mod profiles;
pub mod slot;
pub mod swap;
pub mod laws;
pub mod walk;
pub mod session;
