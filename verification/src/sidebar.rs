//! Menus of a sidebar: what their items are, what they show and what a click
//! on them does.

use vstd::prelude::*;

verus! {

/// An item of a menu. Items with children open and close a submenu.
pub struct SidebarMenuItem {
    pub(crate) icon: Option<String>,
    pub(crate) label: String,
    pub(crate) active: bool,
    pub(crate) default_open: bool,
    pub(crate) click_to_open: bool,
    pub(crate) collapsed: bool,
    pub(crate) click_to_toggle: bool,
    pub(crate) children: Vec<SidebarMenuItem>,
    pub(crate) disabled: bool,
    pub(crate) focus_ring_enabled: bool,
    pub(crate) tab_index: isize,
    pub(crate) tab_stop: bool,
}

/// What an item is.
#[verifier::ext_equal]
pub struct MenuItemView {
    pub icon: Option<Seq<char>>,
    pub label: Seq<char>,
    pub active: bool,
    pub default_open: bool,
    pub click_to_open: bool,
    pub collapsed: bool,
    pub click_to_toggle: bool,
    pub children: Seq<SidebarMenuItem>,
    pub disabled: bool,
    pub focus_ring_enabled: bool,
    pub tab_index: isize,
    pub tab_stop: bool,
}

impl View for SidebarMenuItem {
    type V = MenuItemView;

    open(crate) spec fn view(&self) -> MenuItemView {
        MenuItemView {
            icon: match self.icon {
                Some(icon) => Some(icon@),
                None => None,
            },
            label: self.label@,
            active: self.active,
            default_open: self.default_open,
            click_to_open: self.click_to_open,
            collapsed: self.collapsed,
            click_to_toggle: self.click_to_toggle,
            children: self.children@,
            disabled: self.disabled,
            focus_ring_enabled: self.focus_ring_enabled,
            tab_index: self.tab_index,
            tab_stop: self.tab_stop,
        }
    }
}

impl MenuItemView {
    /// Whether the item has a submenu.
    pub open spec fn is_submenu(self) -> bool {
        self.children.len() > 0
    }

    /// Whether the submenu is shown, given whether it is open.
    pub open spec fn is_open(self, open: Option<bool>) -> bool {
        open == Some(true) && !self.collapsed
    }

    /// Whether the submenu is open after a click on the item.
    pub open spec fn clicked(self, open: Option<bool>) -> Option<bool> {
        match open {
            Some(is_open) => if self.disabled {
                open
            } else if self.click_to_open {
                Some(true)
            } else if self.click_to_toggle {
                Some(!is_open)
            } else {
                open
            },
            None => None,
        }
    }
}

/// What is shown of an item.
#[derive(Clone, Copy, Debug, PartialEq, Eq, Structural)]
pub struct SidebarRow {
    /// The submenu is shown below the item.
    pub is_open: bool,
    /// The item lights up under the pointer.
    pub is_hoverable: bool,
    /// The item is marked as the one with the keyboard focus.
    pub shows_focus_ring: bool,
    /// The keyboard can focus the item.
    pub is_focusable: bool,
    /// The Tab key stops at the item.
    pub is_tab_stop: bool,
    /// A click on the item does something.
    pub is_clickable: bool,
    /// The label is shown, and the suffix beside it.
    pub shows_label: bool,
    /// A button is shown that opens and closes the submenu.
    pub shows_caret: bool,
    /// The label is shown as a tooltip.
    pub shows_tooltip: bool,
}

impl SidebarMenuItem {
    /// Two items are alike, and so are their submenus.
    pub open(crate) spec fn alike(self, other: SidebarMenuItem) -> bool
        decreases self,
    {
        &&& other@ == (MenuItemView { children: other@.children, ..self@ })
        &&& self.children@.len() == other.children@.len()
        &&& forall|i: int|
            0 <= i < self.children@.len() ==> (#[trigger] self.children@[i]).alike(
                other.children@[i],
            )
    }
}

impl Clone for SidebarMenuItem {
    fn clone(&self) -> (copy: Self)
        ensures
            self.alike(copy),
        decreases self,
    {
        let mut children: Vec<SidebarMenuItem> = Vec::new();
        let mut i: usize = 0;
        while i < self.children.len()
            invariant
                i <= self.children.len(),
                children.len() == i,
                forall|k: int|
                    0 <= k < i ==> (#[trigger] self.children@[k]).alike(children@[k]),
            decreases self.children.len() - i,
        {
            children.push(self.children[i].clone());
            i += 1;
        }
        SidebarMenuItem {
            icon: match &self.icon {
                Some(icon) => Some(icon.clone()),
                None => None,
            },
            label: self.label.clone(),
            active: self.active,
            default_open: self.default_open,
            click_to_open: self.click_to_open,
            collapsed: self.collapsed,
            click_to_toggle: self.click_to_toggle,
            children,
            disabled: self.disabled,
            focus_ring_enabled: self.focus_ring_enabled,
            tab_index: self.tab_index,
            tab_stop: self.tab_stop,
        }
    }
}

impl SidebarMenuItem {
    /// An item with a label.
    pub fn new(label: &str) -> (item: Self)
        ensures
            item@ == (MenuItemView {
                icon: None,
                label: label@,
                active: false,
                default_open: false,
                click_to_open: false,
                collapsed: false,
                click_to_toggle: false,
                children: Seq::empty(),
                disabled: false,
                focus_ring_enabled: true,
                tab_index: 0,
                tab_stop: true,
            }),
    {
        SidebarMenuItem {
            icon: None,
            label: label.to_owned(),
            active: false,
            default_open: false,
            click_to_open: false,
            collapsed: false,
            click_to_toggle: false,
            children: Vec::new(),
            disabled: false,
            focus_ring_enabled: true,
            tab_index: 0,
            tab_stop: true,
        }
    }

    /// Sets the icon, by its name.
    pub fn icon(self, icon: &str) -> (item: Self)
        ensures
            item@ == (MenuItemView { icon: Some(icon@), ..self@ }),
    {
        let mut item = self;
        item.icon = Some(icon.to_owned());
        item
    }

    pub fn active(self, active: bool) -> (item: Self)
        ensures
            item@ == (MenuItemView { active, ..self@ }),
    {
        let mut item = self;
        item.active = active;
        item
    }

    pub fn collapsed(self, collapsed: bool) -> (item: Self)
        ensures
            item@ == (MenuItemView { collapsed, ..self@ }),
    {
        let mut item = self;
        item.collapsed = collapsed;
        item
    }

    /// Sets whether the submenu is open at first.
    pub fn default_open(self, open: bool) -> (item: Self)
        ensures
            item@ == (MenuItemView { default_open: open, ..self@ }),
    {
        let mut item = self;
        item.default_open = open;
        item
    }

    /// Sets whether a click on the item opens the submenu. If not, only the
    /// caret button opens and closes it.
    pub fn click_to_open(self, click_to_open: bool) -> (item: Self)
        ensures
            item@ == (MenuItemView { click_to_open, ..self@ }),
    {
        let mut item = self;
        item.click_to_open = click_to_open;
        item
    }

    /// Sets whether a click on the item opens and closes the submenu. Where a
    /// click opens it, this has no effect.
    pub fn click_to_toggle(self, click_to_toggle: bool) -> (item: Self)
        ensures
            item@ == (MenuItemView { click_to_toggle, ..self@ }),
    {
        let mut item = self;
        item.click_to_toggle = click_to_toggle;
        item
    }

    /// Sets the items of the submenu.
    pub fn children(self, children: Vec<SidebarMenuItem>) -> (item: Self)
        ensures
            item@ == (MenuItemView { children: children@, ..self@ }),
    {
        let mut item = self;
        item.children = children;
        item
    }

    pub fn disable(self, disable: bool) -> (item: Self)
        ensures
            item@ == (MenuItemView { disabled: disable, ..self@ }),
    {
        let mut item = self;
        item.disabled = disable;
        item
    }

    /// Sets the place of the item in keyboard focus traversal.
    pub fn tab_index(self, tab_index: isize) -> (item: Self)
        ensures
            item@ == (MenuItemView { tab_index, ..self@ }),
    {
        let mut item = self;
        item.tab_index = tab_index;
        item
    }

    /// Sets whether the Tab key stops at the item.
    pub fn tab_stop(self, tab_stop: bool) -> (item: Self)
        ensures
            item@ == (MenuItemView { tab_stop, ..self@ }),
    {
        let mut item = self;
        item.tab_stop = tab_stop;
        item
    }

    /// Sets whether the item is marked while it has the keyboard focus.
    pub fn focus_ring(self, enabled: bool) -> (item: Self)
        ensures
            item@ == (MenuItemView { focus_ring_enabled: enabled, ..self@ }),
    {
        let mut item = self;
        item.focus_ring_enabled = enabled;
        item
    }

    pub fn is_focus_ring_enabled(&self) -> (enabled: bool)
        ensures
            enabled == self@.focus_ring_enabled,
    {
        self.focus_ring_enabled
    }

    pub fn is_collapsed(&self) -> (collapsed: bool)
        ensures
            collapsed == self@.collapsed,
    {
        self.collapsed
    }

    pub fn is_active(&self) -> (active: bool)
        ensures
            active == self@.active,
    {
        self.active
    }

    pub fn is_default_open(&self) -> (open: bool)
        ensures
            open == self@.default_open,
    {
        self.default_open
    }

    pub fn get_tab_index(&self) -> (tab_index: isize)
        ensures
            tab_index == self@.tab_index,
    {
        self.tab_index
    }

    pub fn label(&self) -> (label: &str)
        ensures
            label@ == self@.label,
    {
        self.label.as_str()
    }

    pub fn icon_name(&self) -> (icon: Option<&str>)
        ensures
            match icon {
                Some(icon) => self@.icon == Some(icon@),
                None => self@.icon is None,
            },
    {
        match &self.icon {
            Some(icon) => Some(icon.as_str()),
            None => None,
        }
    }

    /// Whether the item has a submenu.
    pub fn is_submenu(&self) -> (submenu: bool)
        ensures
            submenu == self@.is_submenu(),
    {
        self.children.len() > 0
    }

    /// The tooltip of an item that is shown as an icon only.
    pub fn collapsed_tooltip(&self) -> (tooltip: Option<String>)
        ensures
            match tooltip {
                Some(text) => self@.collapsed && self@.icon is Some && text@ == self@.label,
                None => !self@.collapsed || self@.icon is None,
            },
    {
        if self.collapsed && self.icon.is_some() {
            Some(self.label.clone())
        } else {
            None
        }
    }

    /// What is shown of the item, given whether its submenu is open, if it has
    /// one, and whether it has the keyboard focus.
    pub fn row(&self, open: Option<bool>, is_focused: bool) -> (row: SidebarRow)
        ensures
            row.is_open == self@.is_open(open),
            row.is_hoverable == (!self@.active && !self@.disabled),
            row.shows_focus_ring == (is_focused && self@.focus_ring_enabled),
            row.is_focusable == !self@.disabled,
            row.is_tab_stop == (!self@.disabled && self@.tab_stop),
            row.is_clickable == !self@.disabled,
            row.shows_label == !self@.collapsed,
            row.shows_caret == (!self@.collapsed && open is Some),
            row.shows_tooltip == (self@.collapsed && self@.icon is Some),
    {
        let is_open = match open {
            Some(is_open) => !self.collapsed && is_open,
            None => false,
        };
        SidebarRow {
            is_open,
            is_hoverable: !self.active && !self.disabled,
            shows_focus_ring: is_focused && self.focus_ring_enabled,
            is_focusable: !self.disabled,
            is_tab_stop: !self.disabled && self.tab_stop,
            is_clickable: !self.disabled,
            shows_label: !self.collapsed,
            shows_caret: !self.collapsed && open.is_some(),
            shows_tooltip: self.collapsed && self.icon.is_some(),
        }
    }

    /// The items of the submenu.
    pub fn into_children(self) -> (children: Vec<SidebarMenuItem>)
        ensures
            children@ == self@.children,
    {
        self.children
    }

    /// Whether the submenu is open after a click on the item.
    pub fn click(&self, open: Option<bool>) -> (after: Option<bool>)
        ensures
            after == self@.clicked(open),
    {
        match open {
            Some(is_open) => if self.disabled {
                open
            } else if self.click_to_open {
                Some(true)
            } else if self.click_to_toggle {
                Some(!is_open)
            } else {
                open
            },
            None => None,
        }
    }

    /// Whether the submenu is open after a click on its caret, which toggles
    /// it whatever a click on the item does.
    pub fn caret_click(&self, open: bool) -> (after: bool)
        ensures
            after == !open,
    {
        !open
    }
}

/// A click never closes the submenu of an item that a click opens, whether or
/// not it is said to toggle it too.
pub proof fn law_click_to_open_wins(item: MenuItemView, open: bool)
    requires
        item.click_to_open,
        !item.disabled,
    ensures
        item.clicked(Some(open)) == Some(true),
        item.clicked(Some(open)) == (MenuItemView {
            click_to_toggle: !item.click_to_toggle,
            ..item
        }).clicked(Some(open)),
{
}

/// Two clicks on an item that toggles its submenu leave it as it was.
pub proof fn law_two_clicks_toggle_back(item: MenuItemView, open: bool)
    requires
        item.click_to_toggle,
        !item.click_to_open,
    ensures
        item.clicked(item.clicked(Some(open))) == Some(open),
{
}

/// A menu of a sidebar.
pub struct SidebarMenu {
    pub(crate) collapsed: bool,
    pub(crate) items: Vec<SidebarMenuItem>,
}

impl Clone for SidebarMenu {
    fn clone(&self) -> (copy: Self)
        ensures
            copy.spec_collapsed() == self.spec_collapsed(),
            copy.spec_items().len() == self.spec_items().len(),
            forall|i: int|
                0 <= i < self.spec_items().len() ==> (#[trigger] self.spec_items()[i]).alike(
                    copy.spec_items()[i],
                ),
    {
        let mut items: Vec<SidebarMenuItem> = Vec::new();
        let mut i: usize = 0;
        while i < self.items.len()
            invariant
                i <= self.items.len(),
                items.len() == i,
                forall|k: int| 0 <= k < i ==> (#[trigger] self.items@[k]).alike(items@[k]),
            decreases self.items.len() - i,
        {
            items.push(self.items[i].clone());
            i += 1;
        }
        SidebarMenu { collapsed: self.collapsed, items }
    }
}

impl SidebarMenu {
    pub open(crate) spec fn spec_collapsed(self) -> bool {
        self.collapsed
    }

    pub open(crate) spec fn spec_items(self) -> Seq<SidebarMenuItem> {
        self.items@
    }

    pub fn new() -> (menu: Self)
        ensures
            !menu.spec_collapsed(),
            menu.spec_items() == Seq::<SidebarMenuItem>::empty(),
    {
        SidebarMenu { items: Vec::new(), collapsed: false }
    }

    /// Adds an item.
    pub fn child(self, child: SidebarMenuItem) -> (menu: Self)
        ensures
            menu.spec_items() == self.spec_items().push(child),
            menu.spec_collapsed() == self.spec_collapsed(),
    {
        let mut menu = self;
        menu.items.push(child);
        menu
    }

    /// Adds several items, behind those that are there.
    pub fn children(self, children: Vec<SidebarMenuItem>) -> (menu: Self)
        ensures
            menu.spec_items() == self.spec_items() + children@,
            menu.spec_collapsed() == self.spec_collapsed(),
    {
        let mut menu = self;
        let mut children = children;
        menu.items.append(&mut children);
        menu
    }

    pub fn is_collapsed(&self) -> (collapsed: bool)
        ensures
            collapsed == self.spec_collapsed(),
    {
        self.collapsed
    }

    pub fn collapsed(self, collapsed: bool) -> (menu: Self)
        ensures
            menu.spec_items() == self.spec_items(),
            menu.spec_collapsed() == collapsed,
    {
        let mut menu = self;
        menu.collapsed = collapsed;
        menu
    }

    /// The items as they are shown: each as collapsed as the menu.
    pub fn into_items(self) -> (items: Vec<SidebarMenuItem>)
        ensures
            items@.len() == self.spec_items().len(),
            forall|i: int|
                0 <= i < items@.len() ==> (#[trigger] items@[i])@ == (MenuItemView {
                    collapsed: self.spec_collapsed(),
                    ..self.spec_items()[i]@
                }),
    {
        let mut items = self.items;
        let collapsed = self.collapsed;
        let ghost given = items@;
        let mut i: usize = 0;
        while i < items.len()
            invariant
                i <= items@.len(),
                items@.len() == given.len(),
                forall|k: int|
                    0 <= k < i ==> (#[trigger] items@[k])@ == (MenuItemView {
                        collapsed,
                        ..given[k]@
                    }),
                forall|k: int| i <= k < items@.len() ==> #[trigger] items@[k] == given[k],
            decreases items@.len() - i,
        {
            items[i].collapsed = collapsed;
            i += 1;
        }
        items
    }
}

} // verus!
